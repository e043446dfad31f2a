//! Convex outlines with arcs over some of their sides, but for rounding: what a shape's core and its
//! sampled boundary are, and that samples are inscribed.
use vstd::prelude::*;

use crate::angle;
use crate::arc::ProfileArc;
use crate::circuit;
use crate::convex;
use crate::cutting;
use crate::cutting::Stage;
use crate::ideal;
use crate::ideal::Ideal;
use crate::loops;
use crate::moving;
use crate::polygon;
use crate::profile;
use crate::profile::{ExtrudedProfile, Region};
use crate::scalar::Scalar;
use crate::series;
use crate::vector::Vector2;
use crate::winding;

verus! {

/// An outline: its corners in their order and, for each, whether an arc leads on from it to the next
/// rather than a straight side.
pub struct Outline {
    pub corners: Seq<Vector2<Ideal>>,
    pub sides: Seq<Option<ProfileArc<Ideal>>>,
}

impl Outline {
    /// The points that stand for the side from the `i`-th corner on.
    pub open spec fn stretch(self, i: int) -> Seq<Vector2<Ideal>> {
        match self.sides[i] {
            None => seq![self.corners[i]],
            Some(arc) => profile::samples(arc),
        }
    }

    /// The points that stand for the first `m` sides.
    pub open spec fn run(self, m: nat) -> Seq<Vector2<Ideal>>
        decreases m,
    {
        if m == 0 {
            Seq::empty()
        } else {
            self.run((m - 1) as nat) + self.stretch(m - 1)
        }
    }

    /// The points that stand for the whole outline.
    pub open spec fn sampled(self) -> Seq<Vector2<Ideal>> {
        self.run(self.corners.len())
    }

    /// The arcs over the first `m` sides.
    pub open spec fn arcs(self, m: nat) -> Seq<ProfileArc<Ideal>>
        decreases m,
    {
        if m == 0 {
            Seq::empty()
        } else {
            match self.sides[m - 1] {
                None => self.arcs((m - 1) as nat),
                Some(arc) => self.arcs((m - 1) as nat).push(arc),
            }
        }
    }

    /// Does each arc lead from its corner to the next?
    pub open spec fn is_sound(self) -> bool {
        &&& 0 < self.corners.len() == self.sides.len()
        &&& loops::has_points(self.corners)
        &&& forall|i: int| 0 <= i < self.sides.len() ==> #[trigger] self.leads_on(i)
    }

    /// Does the `i`-th side, if it is an arc, lead from its corner to the next?
    pub open spec fn leads_on(self, i: int) -> bool {
        self.sides[i] matches Some(arc) ==> {
            &&& moving::is_arc(arc)
            &&& arc.swept().v >= 0real
            &&& arc.point_at(arc.start) == self.corners[i]
            &&& arc.point_at(arc.end) == self.corners[(i + 1) % self.corners.len() as int]
        }
    }

    /// Is this the outline of the shape? Its arcs are those of the shape, in whatever order, and
    /// its other corners are vertices of the shape, which has no vertices besides.
    pub open spec fn is_of(self, shape: ExtrudedProfile<Ideal>) -> bool {
        &&& self.is_sound()
        &&& forall|p: Vector2<Ideal>| #[trigger]
            shape.profile@.contains(p) ==> self.corners.contains(p)
        &&& forall|i: int|
            0 <= i < self.sides.len() && #[trigger] self.sides[i] is None
                ==> shape.profile@.contains(self.corners[i])
        &&& shape.arcs@.to_multiset() == self.arcs(self.sides.len()).to_multiset()
    }
}

/// Is `p` an end of an arc?
pub open spec fn is_end(arc: ProfileArc<Ideal>, p: Vector2<Ideal>) -> bool {
    p == arc.point_at(arc.start) || p == arc.point_at(arc.end)
}

proof fn lemma_chord_points(
    vertices: Seq<Vector2<Ideal>>,
    arcs: Seq<ProfileArc<Ideal>>,
    p: Vector2<Ideal>,
)
    ensures
        profile::chord_points(vertices, arcs).contains(p) == (vertices.contains(p) || exists|j: int|
            0 <= j < arcs.len() && is_end(#[trigger] arcs[j], p)),
    decreases arcs.len(),
{
    let all = profile::chord_points(vertices, arcs);
    if arcs.len() > 0 {
        let rest = arcs.drop_last();
        let arc = arcs[arcs.len() - 1];
        let before = profile::chord_points(vertices, rest);
        lemma_chord_points(vertices, rest, p);
        let n = before.len() as int;
        assert(all == before.push(arc.point_at(arc.start)).push(arc.point_at(arc.end)));
        if all.contains(p) {
            let x = choose|x: int| 0 <= x < all.len() && all[x] == p;
            if x < n {
                assert(before[x] == p);
                assert(before.contains(p));
                if !vertices.contains(p) {
                    let j = choose|j: int| 0 <= j < rest.len() && is_end(#[trigger] rest[j], p);
                    assert(is_end(arcs[j], p));
                }
            } else {
                assert(is_end(arcs[arcs.len() - 1], p));
            }
        }
        if vertices.contains(p) {
            let x = choose|x: int| 0 <= x < before.len() && before[x] == p;
            assert(all[x] == p);
        }
        if exists|j: int| 0 <= j < arcs.len() && is_end(#[trigger] arcs[j], p) {
            let j = choose|j: int| 0 <= j < arcs.len() && is_end(#[trigger] arcs[j], p);
            if j < rest.len() {
                assert(is_end(rest[j], p));
                let x = choose|x: int| 0 <= x < before.len() && before[x] == p;
                assert(all[x] == p);
            } else {
                assert(all[n] == arc.point_at(arc.start) && all[n + 1] == arc.point_at(arc.end));
            }
        }
    }
}

proof fn lemma_sampled_points(
    vertices: Seq<Vector2<Ideal>>,
    arcs: Seq<ProfileArc<Ideal>>,
    p: Vector2<Ideal>,
)
    ensures
        profile::sampled_points(vertices, arcs).contains(p) == (vertices.contains(p) || exists|
            j: int,
        |
            0 <= j < arcs.len() && profile::samples(#[trigger] arcs[j]).contains(p)),
    decreases arcs.len(),
{
    let all = profile::sampled_points(vertices, arcs);
    if arcs.len() > 0 {
        let rest = arcs.drop_last();
        let arc = arcs[arcs.len() - 1];
        let before = profile::sampled_points(vertices, rest);
        let s = profile::samples(arc);
        lemma_sampled_points(vertices, rest, p);
        assert(all == before + s);
        lemma_joined_points(before, s, p);
        if before.contains(p) && !vertices.contains(p) {
            let j = choose|j: int|
                0 <= j < rest.len() && profile::samples(#[trigger] rest[j]).contains(p);
            assert(profile::samples(arcs[j]).contains(p));
        }
        if exists|j: int| 0 <= j < arcs.len() && profile::samples(#[trigger] arcs[j]).contains(p) {
            let j = choose|j: int|
                0 <= j < arcs.len() && profile::samples(#[trigger] arcs[j]).contains(p);
            if j < rest.len() {
                assert(profile::samples(rest[j]).contains(p));
            }
        }
        if s.contains(p) {
            assert(profile::samples(arcs[arcs.len() - 1]).contains(p));
        }
    }
}

proof fn lemma_joined_points(a: Seq<Vector2<Ideal>>, b: Seq<Vector2<Ideal>>, p: Vector2<Ideal>)
    ensures
        (a + b).contains(p) == (a.contains(p) || b.contains(p)),
{
    if (a + b).contains(p) {
        let x = choose|x: int| 0 <= x < (a + b).len() && (a + b)[x] == p;
        if x < a.len() {
            assert(a[x] == p);
        } else {
            assert(b[x - a.len()] == p);
        }
    }
    if a.contains(p) {
        let x = choose|x: int| 0 <= x < a.len() && a[x] == p;
        assert((a + b)[x] == p);
    }
    if b.contains(p) {
        let x = choose|x: int| 0 <= x < b.len() && b[x] == p;
        assert((a + b)[a.len() + x] == p);
    }
}

proof fn lemma_arcs_of(o: Outline, m: nat, arc: ProfileArc<Ideal>)
    requires
        m <= o.sides.len(),
    ensures
        o.arcs(m).contains(arc) == exists|i: int|
            0 <= i < m && #[trigger] o.sides[i] == Some(arc),
    decreases m,
{
    if m > 0 {
        let rest = o.arcs((m - 1) as nat);
        lemma_arcs_of(o, (m - 1) as nat, arc);
        let all = o.arcs(m);
        if all.contains(arc) {
            let x = choose|x: int| 0 <= x < all.len() && all[x] == arc;
            if x < rest.len() {
                assert(rest[x] == arc);
                assert(rest.contains(arc));
            } else {
                assert(o.sides[m - 1] == Some(arc));
            }
        }
        if rest.contains(arc) {
            let x = choose|x: int| 0 <= x < rest.len() && rest[x] == arc;
            assert(all[x] == arc);
        }
        if o.sides[m - 1] == Some(arc) {
            assert(all[rest.len() as int] == arc);
        }
    }
}

proof fn lemma_run_points(o: Outline, m: nat, p: Vector2<Ideal>)
    ensures
        o.run(m).contains(p) == exists|i: int| 0 <= i < m && (#[trigger] o.stretch(i)).contains(p),
    decreases m,
{
    if m > 0 {
        lemma_run_points(o, (m - 1) as nat, p);
        lemma_joined_points(o.run((m - 1) as nat), o.stretch(m - 1), p);
        if o.stretch(m - 1).contains(p) {
            assert(0 <= m - 1 < m);
        }
    }
}

/// The shape has the arcs of its outline, and no others.
proof fn lemma_same_arcs(o: Outline, shape: ExtrudedProfile<Ideal>, arc: ProfileArc<Ideal>)
    requires
        o.is_of(shape),
    ensures
        shape.arcs@.contains(arc) == exists|i: int|
            0 <= i < o.sides.len() && #[trigger] o.sides[i] == Some(arc),
{
    broadcast use vstd::seq_lib::group_to_multiset_ensures;

    let all = o.arcs(o.sides.len());
    lemma_arcs_of(o, o.sides.len(), arc);
    assert(shape.arcs@.contains(arc) == (shape.arcs@.to_multiset().count(arc) > 0));
    assert(all.contains(arc) == (all.to_multiset().count(arc) > 0));
}

/// The first point that stands for an arc is its start.
proof fn lemma_first_sample(arc: ProfileArc<Ideal>)
    requires
        moving::is_arc(arc),
    ensures
        profile::samples(arc).len() >= 2,
        profile::samples(arc)[0] == arc.point_at(arc.start),
{
    profile::law_two_samples(arc);
    let n = profile::sample_count(arc) as nat;
    let x = arc.swept().v;
    let m = n as real;
    assert(0real / m == 0real) by (nonlinear_arith)
        requires
            m > 0real,
    ;
    assert(x * 0real == 0real) by (nonlinear_arith);
    assert(arc.start.plus(arc.swept().times(Ideal::of_count(0).over(Ideal::of_count(n))))
        == arc.start);
}

/// The corners of the outline are the points that the core of the shape runs through.
proof fn lemma_core_points(o: Outline, shape: ExtrudedProfile<Ideal>)
    requires
        o.is_of(shape),
    ensures
        circuit::same_points(profile::chord_points(shape.profile@, shape.arcs@), o.corners),
{
    let points = profile::chord_points(shape.profile@, shape.arcs@);
    let n = o.corners.len() as int;
    assert forall|p: Vector2<Ideal>| #[trigger] points.contains(p) == o.corners.contains(p) by {
        lemma_chord_points(shape.profile@, shape.arcs@, p);
        if points.contains(p) && !shape.profile@.contains(p) {
            let j = choose|j: int|
                0 <= j < shape.arcs@.len() && is_end(#[trigger] shape.arcs@[j], p);
            let arc = shape.arcs@[j];
            assert(shape.arcs@.contains(arc));
            lemma_same_arcs(o, shape, arc);
            let i = choose|i: int| 0 <= i < o.sides.len() && #[trigger] o.sides[i] == Some(arc);
            assert(o.leads_on(i));
            polygon::lemma_next(i, n);
            assert(o.corners.contains(o.corners[i]) && o.corners.contains(
                o.corners[(i + 1) % n],
            ));
        }
        if o.corners.contains(p) {
            let i = choose|i: int| 0 <= i < n && o.corners[i] == p;
            assert(o.leads_on(i));
            match o.sides[i] {
                None => {},
                Some(arc) => {
                    lemma_same_arcs(o, shape, arc);
                    let j = choose|j: int| 0 <= j < shape.arcs@.len() && shape.arcs@[j] == arc;
                    assert(is_end(shape.arcs@[j], p));
                },
            }
        }
    }
}

/// The points that stand for the outline are those that the sampled boundary runs through.
proof fn lemma_boundary_points(o: Outline, shape: ExtrudedProfile<Ideal>)
    requires
        o.is_of(shape),
    ensures
        circuit::same_points(profile::sampled_points(shape.profile@, shape.arcs@), o.sampled()),
{
    let points = profile::sampled_points(shape.profile@, shape.arcs@);
    let n = o.corners.len() as int;
    assert forall|p: Vector2<Ideal>| #[trigger] points.contains(p) == o.sampled().contains(p) by {
        lemma_sampled_points(shape.profile@, shape.arcs@, p);
        lemma_run_points(o, o.corners.len(), p);
        if shape.profile@.contains(p) {
            assert(o.corners.contains(p));
            let i = choose|i: int| 0 <= i < n && o.corners[i] == p;
            assert(o.leads_on(i));
            lemma_stretch(o, i);
            assert(o.stretch(i).contains(o.stretch(i)[0]));
        } else if points.contains(p) {
            let j = choose|j: int|
                0 <= j < shape.arcs@.len() && profile::samples(#[trigger] shape.arcs@[j]).contains(
                    p,
                );
            let arc = shape.arcs@[j];
            assert(shape.arcs@.contains(arc));
            lemma_same_arcs(o, shape, arc);
            let i = choose|i: int| 0 <= i < o.sides.len() && #[trigger] o.sides[i] == Some(arc);
            assert(o.stretch(i).contains(p));
        }
        if o.sampled().contains(p) {
            let i = choose|i: int| 0 <= i < n && (#[trigger] o.stretch(i)).contains(p);
            match o.sides[i] {
                None => {
                    assert(shape.profile@.contains(o.corners[i]));
                },
                Some(arc) => {
                    lemma_same_arcs(o, shape, arc);
                    let j = choose|j: int| 0 <= j < shape.arcs@.len() && shape.arcs@[j] == arc;
                    assert(profile::samples(shape.arcs@[j]).contains(p));
                },
            }
        }
    }
}

/// A side starts at its corner.
proof fn lemma_stretch(o: Outline, i: int)
    requires
        o.is_sound(),
        0 <= i < o.corners.len(),
    ensures
        o.stretch(i).len() > 0,
        o.stretch(i)[0] == o.corners[i],
{
    assert(o.leads_on(i));
    if let Some(arc) = o.sides[i] {
        lemma_first_sample(arc);
    }
}

/// What stands for the first sides stays as further ones follow.
proof fn lemma_run_grows(o: Outline, m: nat, n: nat, t: int)
    requires
        m <= n,
        0 <= t < o.run(m).len(),
    ensures
        o.run(m).len() <= o.run(n).len(),
        o.run(n)[t] == o.run(m)[t],
    decreases n,
{
    if m < n {
        lemma_run_grows(o, m, (n - 1) as nat, t);
    }
}

/// Where the `i`-th side of an outline starts among the points that stand for it.
proof fn lemma_side_start(o: Outline, i: nat)
    requires
        o.is_sound(),
        i < o.corners.len(),
    ensures
        o.run(i).len() < o.run(i + 1).len() <= o.sampled().len(),
        o.sampled()[o.run(i).len() as int] == o.corners[i as int],
{
    lemma_stretch(o, i as int);
    let t = o.run(i).len() as int;
    assert(o.run(i + 1)[t] == o.stretch(i as int)[0]);
    lemma_run_grows(o, i + 1, o.corners.len(), t);
}

proof fn lemma_run_longer(o: Outline, i: nat, j: nat)
    requires
        o.is_sound(),
        i < j < o.corners.len(),
    ensures
        o.run(i).len() < o.run(j).len(),
    decreases j,
{
    lemma_stretch(o, j - 1);
    if i + 1 < j {
        lemma_run_longer(o, i, (j - 1) as nat);
    }
}

/// The vertices of a convex loop of three or more all differ.
proof fn lemma_convex_is_simple(poly: Seq<Vector2<Ideal>>)
    requires
        convex::is_convex(poly),
        poly.len() >= 3,
    ensures
        circuit::is_simple(poly),
{
    assert forall|i: int, j: int| 0 <= i < j < poly.len() implies #[trigger] poly[i]
        != #[trigger] poly[j] by {
        let third: int = if i != 0 {
            0
        } else if j != 1 {
            1
        } else {
            2
        };
        let (p, q) = (poly[i], poly[third]);
        convex::lemma_no_turn(p, q);
        assert(loops::is_point(p) && loops::is_point(q));
        if third < i {
            assert(convex::turn(poly[third], poly[i], poly[j]) > 0real);
            convex::lemma_turn(q, p, p);
        } else if third < j {
            assert(convex::turn(poly[i], poly[third], poly[j]) > 0real);
        } else {
            assert(convex::turn(poly[i], poly[j], poly[third]) > 0real);
        }
    }
}

/// The corners of an outline whose samples make a convex loop make one too.
proof fn lemma_corners_convex(o: Outline)
    requires
        o.is_sound(),
        convex::is_convex(o.sampled()),
        o.sampled().len() >= 3,
    ensures
        convex::is_convex(o.corners),
        circuit::is_simple(o.corners),
{
    let all = o.sampled();
    lemma_convex_is_simple(all);
    assert forall|i: int, j: int, k: int| 0 <= i < j < k < o.corners.len() implies #[trigger]
        convex::turn(o.corners[i], o.corners[j], o.corners[k]) > 0real by {
        lemma_side_start(o, i as nat);
        lemma_side_start(o, j as nat);
        lemma_side_start(o, k as nat);
        lemma_run_longer(o, i as nat, j as nat);
        lemma_run_longer(o, j as nat, k as nat);
        let (x, y, z) = (
            o.run(i as nat).len() as int,
            o.run(j as nat).len() as int,
            o.run(k as nat).len() as int,
        );
        assert(convex::turn(all[x], all[y], all[z]) > 0real);
    }
    assert forall|i: int, j: int| 0 <= i < j < o.corners.len() implies #[trigger] o.corners[i]
        != #[trigger] o.corners[j] by {
        lemma_side_start(o, i as nat);
        lemma_side_start(o, j as nat);
        lemma_run_longer(o, i as nat, j as nat);
        let (x, y) = (o.run(i as nat).len() as int, o.run(j as nat).len() as int);
        assert(all[x] != all[y]);
    }
}

/// The core of a shape is the convex loop that its vertices and the ends of its arcs make, from some
/// vertex on.
proof fn lemma_core(shape: ExtrudedProfile<Ideal>, corners: Seq<Vector2<Ideal>>) -> (k: int)
    requires
        circuit::same_points(profile::chord_points(shape.profile@, shape.arcs@), corners),
        corners.len() > 0,
        convex::is_convex(corners),
        corners.len() >= 3 || circuit::is_simple(corners),
        circuit::is_apart(corners),
    ensures
        0 <= k < corners.len(),
        shape.straight_core() == loops::rotated(corners, k),
        shape.region() == (Stage { core: corners, arcs: shape.arcs@ }).region(),
{
    let points = profile::chord_points(shape.profile@, shape.arcs@);
    let w = winding::wound(points, winding::middle(points));
    let k = circuit::law_convex_loop_is_found(points, corners);
    assert(circuit::is_apart(w)) by {
        assert forall|p: Vector2<Ideal>, q: Vector2<Ideal>|
            w.contains(p) && w.contains(q) && #[trigger] winding::coincide(p, q) implies p == q by {
            assert(corners.contains(p) && corners.contains(q));
        }
    }
    circuit::lemma_distinct_is_unrepeated(w);
    loops::law_rotated_polygon(corners, k as nat);
    circuit::lemma_rotated_points(corners, k);
    k
}

/// The core of a shape with a convex outline is the loop of its corners, from some corner on; so
/// the region that the shape is measured as is that of its corners and arcs.
pub proof fn law_core_is_corners(o: Outline, shape: ExtrudedProfile<Ideal>) -> (k: int)
    requires
        o.is_of(shape),
        convex::is_convex(o.corners),
        o.corners.len() >= 3 || circuit::is_simple(o.corners),
        circuit::is_apart(o.corners),
    ensures
        0 <= k < o.corners.len(),
        shape.straight_core() == loops::rotated(o.corners, k),
        shape.region() == (Stage { core: o.corners, arcs: shape.arcs@ }).region(),
{
    lemma_core_points(o, shape);
    lemma_core(shape, o.corners)
}

/// The angle of the `t`-th of `l` points spread over an arc.
spec fn spread_angle(arc: ProfileArc<Ideal>, t: int, l: nat) -> Ideal {
    arc.start.plus(arc.swept().times(ideal::number((t as real) / (l as real))))
}

/// One edge along the points that stand for an arc spans no more than what the arc sweeps there.
proof fn lemma_sample_edge(arc: ProfileArc<Ideal>, t: int, l: nat)
    requires
        moving::is_arc(arc),
        arc.swept().v >= 0real,
        0 <= t < l,
    ensures
        ({
            let (a, b) = (spread_angle(arc, t, l), spread_angle(arc, t + 1, l));
            let (u, w, r) = (arc.center.x.v, arc.center.y.v, arc.radius.v);
            arc.point_at(a).outer(arc.point_at(b)).v <= cutting::swept_area(u, w, r, b.v)
                - cutting::swept_area(u, w, r, a.v)
        }),
{
    let (a, b) = (spread_angle(arc, t, l), spread_angle(arc, t + 1, l));
    let part = ProfileArc::<Ideal> { start: a, end: b, ..arc };
    let (x, m) = (t as real, l as real);
    let (y, z) = (x / m, (x + 1real) / m);
    assert(y <= z) by (nonlinear_arith)
        requires
            y == x / m,
            z == (x + 1real) / m,
            m > 0real,
    ;
    assert((t + 1) as real == x + 1real);
    let s = arc.swept().v;
    assert(s * y <= s * z) by (nonlinear_arith)
        requires
            s >= 0real,
            y <= z,
    ;
    assert(part.swept().v >= 0real);
    cutting::lemma_sector_area(part);
}

/// The sum of the edges along the points that stand for an arc, the last of them to its end, is at
/// most what its chord spans and twice the part between.
proof fn lemma_arc_edges(arc: ProfileArc<Ideal>, f: spec_fn(int) -> real, l: nat)
    requires
        moving::is_arc(arc),
        arc.swept().v >= 0real,
        0 < l,
        forall|t: int|
            0 <= t < l ==> #[trigger] f(t) == arc.point_at(spread_angle(arc, t, l)).outer(
                arc.point_at(spread_angle(arc, t + 1, l)),
            ).v,
    ensures
        series::sum(f, l) <= arc.point_at(arc.start).outer(arc.point_at(arc.end)).v + 2real
            * profile::segment_area(arc).v,
{
    let (u, w, r) = (arc.center.x.v, arc.center.y.v, arc.radius.v);
    let g = |t: int| cutting::swept_area(u, w, r, spread_angle(arc, t, l).v);
    let step = |t: int| g(t + 1) - g(t);
    assert forall|t: int| 0 <= t < l implies #[trigger] f(t) <= step(t) by {
        lemma_sample_edge(arc, t, l);
    }
    series::lemma_no_larger(f, step, l);
    series::lemma_telescopes(g, l);
    cutting::lemma_sector_area(arc);
    let m = l as real;
    let s = arc.swept().v;
    assert(0real / m == 0real && m / m == 1real) by (nonlinear_arith)
        requires
            m > 0real,
    ;
    assert(s * 0real == 0real && s * 1real == s) by (nonlinear_arith);
    assert(spread_angle(arc, 0, l).v == arc.start.v);
    assert(spread_angle(arc, l as int, l).v == arc.end.v);
}

/// Twice the part between the `i`-th side and its chord.
pub open spec fn bulge(o: Outline) -> spec_fn(int) -> real {
    |i: int|
        match o.sides[i] {
            None => 0real,
            Some(arc) => 2real * profile::segment_area(arc).v,
        }
}

/// Where the side after the `i`-th starts, the loop of the samples goes on at its corner.
proof fn lemma_next_stretch(o: Outline, i: int, t: int)
    requires
        o.is_sound(),
        0 <= i < o.corners.len(),
        0 <= t < o.stretch(i).len(),
    ensures
        ({
            let all = o.sampled();
            let a = o.run(i as nat).len();
            &&& a + t < all.len()
            &&& all[a + t] == o.stretch(i)[t]
            &&& all[(a + t + 1) % all.len() as int] == if t + 1 < o.stretch(i).len() {
                o.stretch(i)[t + 1]
            } else {
                o.corners[(i + 1) % o.corners.len() as int]
            }
        }),
{
    let all = o.sampled();
    let n = o.corners.len() as int;
    let a = o.run(i as nat).len() as int;
    let b = o.run((i + 1) as nat).len() as int;
    assert(b == a + o.stretch(i).len());
    assert(o.run((i + 1) as nat)[a + t] == o.stretch(i)[t]);
    lemma_run_grows(o, (i + 1) as nat, o.corners.len(), a + t);
    polygon::lemma_next(i, n);
    polygon::lemma_next(a + t, all.len() as int);
    if t + 1 < o.stretch(i).len() {
        assert(o.run((i + 1) as nat)[a + t + 1] == o.stretch(i)[t + 1]);
        lemma_run_grows(o, (i + 1) as nat, o.corners.len(), a + t + 1);
    } else if i + 1 < n {
        lemma_side_start(o, (i + 1) as nat);
    } else {
        lemma_side_start(o, 0);
        assert(o.run(0).len() == 0);
    }
}

/// The edges along the points that stand for the first `m` sides.
proof fn lemma_run_sum(o: Outline, m: nat)
    requires
        o.is_sound(),
        m <= o.corners.len(),
    ensures
        series::sum(loops::edge_values(o.sampled(), polygon::area_term()), o.run(m).len())
            <= series::sum(loops::edge_values(o.corners, polygon::area_term()), m) + series::sum(
            bulge(o),
            m,
        ),
    decreases m,
{
    if m > 0 {
        let i = m - 1;
        let (n, k) = (o.run(i as nat).len(), o.stretch(i).len());
        let all = o.sampled();
        let f = loops::edge_values(all, polygon::area_term());
        lemma_run_sum(o, i as nat);
        series::lemma_parts(f, n, k);
        let g = |t: int| f(n + t);
        assert(o.leads_on(i));
        lemma_stretch(o, i);
        let p = o.corners[(i + 1) % o.corners.len() as int];
        match o.sides[i] {
            None => {
                lemma_next_stretch(o, i, 0);
                reveal_with_fuel(series::sum, 2);
                assert(g(0) == o.corners[i].outer(p).v);
                assert(series::sum(g, k) == g(0));
            },
            Some(arc) => {
                assert forall|t: int| 0 <= t < k implies #[trigger] g(t) == arc.point_at(
                    spread_angle(arc, t, k),
                ).outer(arc.point_at(spread_angle(arc, t + 1, k))).v by {
                    lemma_next_stretch(o, i, t);
                    let (x, s) = (k as real, arc.swept().v);
                    assert(x / x == 1real) by (nonlinear_arith)
                        requires
                            x > 0real,
                    ;
                    assert(s * 1real == s) by (nonlinear_arith);
                    assert(spread_angle(arc, k as int, k) == arc.end);
                }
                lemma_arc_edges(arc, g, k);
            },
        }
    }
}

/// The parts between the arcs and their chords, taken together.
spec fn weights(arcs: Seq<ProfileArc<Ideal>>) -> real
    decreases arcs.len(),
{
    if arcs.len() == 0 {
        0real
    } else {
        weights(arcs.drop_last()) + profile::segment_area(arcs.last()).v
    }
}

proof fn lemma_weights_without(arcs: Seq<ProfileArc<Ideal>>, j: int)
    requires
        0 <= j < arcs.len(),
    ensures
        weights(arcs) == weights(arcs.remove(j)) + profile::segment_area(arcs[j]).v,
    decreases arcs.len(),
{
    let n = arcs.len() - 1;
    if j == n {
        assert(arcs.remove(j) =~= arcs.drop_last());
    } else {
        let rest = arcs.drop_last();
        lemma_weights_without(rest, j);
        assert(arcs.remove(j).drop_last() =~= rest.remove(j));
        assert(arcs.remove(j).last() == arcs[n]);
        assert(rest[j] == arcs[j]);
    }
}

/// In whatever order they are taken.
proof fn lemma_weights_any_order(a: Seq<ProfileArc<Ideal>>, b: Seq<ProfileArc<Ideal>>)
    requires
        a.to_multiset() == b.to_multiset(),
    ensures
        weights(a) == weights(b),
        a.len() == b.len(),
    decreases a.len(),
{
    broadcast use vstd::seq_lib::group_to_multiset_ensures;

    assert(a.len() == a.to_multiset().len() && b.len() == b.to_multiset().len());
    if a.len() > 0 {
        let n = a.len() - 1;
        let arc = a[n];
        assert(a.contains(arc));
        assert(a.to_multiset().count(arc) > 0);
        assert(b.contains(arc));
        let j = choose|j: int| 0 <= j < b.len() && b[j] == arc;
        let rest = a.drop_last();
        assert(rest =~= a.remove(n));
        assert(a.remove(n).to_multiset() =~= a.to_multiset().remove(arc));
        assert(b.remove(j).to_multiset() =~= b.to_multiset().remove(arc));
        lemma_weights_any_order(rest, b.remove(j));
        lemma_weights_without(b, j);
    }
}

proof fn lemma_weights_of(o: Outline, m: nat)
    requires
        m <= o.sides.len(),
    ensures
        2real * weights(o.arcs(m)) == series::sum(bulge(o), m),
    decreases m,
{
    if m > 0 {
        lemma_weights_of(o, (m - 1) as nat);
        if let Some(arc) = o.sides[m - 1] {
            assert(o.arcs(m).drop_last() =~= o.arcs((m - 1) as nat));
            assert(o.arcs(m).last() == arc);
        }
    }
}

/// Is the part between the arc and its chord large enough to be counted?
pub open spec fn is_wide(arc: ProfileArc<Ideal>) -> bool {
    moving::is_arc(arc) && !profile::segment_area(arc).magnitude().below(Ideal::epsilon_value())
}

proof fn lemma_area_with_arcs(r: Region<Ideal>, arcs: Seq<ProfileArc<Ideal>>)
    requires
        r.area.side == 0,
        forall|j: int| 0 <= j < arcs.len() ==> is_wide(#[trigger] arcs[j]),
    ensures
        r.with_segments(arcs).area == ideal::number(r.area.v + weights(arcs)),
    decreases arcs.len(),
{
    if arcs.len() > 0 {
        let rest = arcs.drop_last();
        assert forall|j: int| 0 <= j < rest.len() implies is_wide(#[trigger] rest[j]) by {
            assert(rest[j] == arcs[j]);
        }
        lemma_area_with_arcs(r, rest);
        assert(is_wide(arcs[arcs.len() - 1]));
    }
}

/// The sampled boundary of a convex shape whose arcs bulge outward is inscribed in the exact one: it
/// has no larger area, as long as nothing was too small to be counted there.
pub proof fn law_samples_are_inscribed(o: Outline, shape: ExtrudedProfile<Ideal>)
    requires
        o.is_of(shape),
        shape.arcs@.len() > 0,
        convex::is_convex(o.sampled()),
        o.sampled().len() >= 3,
        circuit::is_apart(o.corners),
        o.corners.len() < 3 || !polygon::is_flat(o.corners),
        forall|j: int| 0 <= j < shape.arcs@.len() ==> is_wide(#[trigger] shape.arcs@[j]),
        !shape.is_degenerate(),
    ensures
        shape.sampled_area().at_most(shape.exact_area()),
{
    loops::lemma_terms();
    let term = polygon::area_term::<Ideal>();
    lemma_corners_convex(o);
    law_core_is_corners(o, shape);
    // The exact area.
    loops::lemma_loop_sum(o.corners, term);
    let r = Region::inside(o.corners);
    let (a, h) = (polygon::loop_sum(o.corners, term).v, polygon::half_value::<Ideal>().v);
    assert(h == 1real / 2real);
    if o.corners.len() < 3 {
        cutting::lemma_two_vertices(o.corners, term);
    }
    assert(2real * r.area.v == a && r.area.side == 0);
    lemma_area_with_arcs(r, shape.arcs@);
    lemma_weights_any_order(shape.arcs@, o.arcs(o.sides.len()));
    lemma_weights_of(o, o.sides.len());
    // The sampled one.
    let points = profile::sampled_points(shape.profile@, shape.arcs@);
    let w = shape.boundary();
    lemma_boundary_points(o, shape);
    let k = circuit::law_convex_loop_is_found(points, o.sampled());
    loops::lemma_repeated_sum(w, term);
    loops::lemma_rotated_sum(o.sampled(), term, k as nat);
    loops::lemma_loop_sum(o.sampled(), term);
    lemma_run_sum(o, o.corners.len());
    let b = polygon::loop_sum(o.sampled(), term).v;
    ideal::lemma_dist(h, a, b);
    assert(shape.sampled_area() == ideal::number(b * h));
    assert(shape.exact_area() == shape.region().area);
    assert(b <= 2real * shape.exact_area().v);
}

/// The arcs with the `j`-th cut in two at the angle `m`.
pub open spec fn with_cut(
    arcs: Seq<ProfileArc<Ideal>>,
    j: int,
    m: Ideal,
) -> Seq<ProfileArc<Ideal>> {
    arcs.take(j) + seq![cutting::before(arcs[j], m), cutting::behind(arcs[j], m)] + arcs.skip(j + 1)
}

/// Cutting an arc adds the point where it is cut to those that the core runs through.
proof fn lemma_cut_points(
    vertices: Seq<Vector2<Ideal>>,
    arcs: Seq<ProfileArc<Ideal>>,
    j: int,
    m: Ideal,
    p: Vector2<Ideal>,
)
    requires
        0 <= j < arcs.len(),
    ensures
        profile::chord_points(vertices, with_cut(arcs, j, m)).contains(p) == (
        profile::chord_points(vertices, arcs).contains(p) || p == arcs[j].point_at(m)),
{
    let other = with_cut(arcs, j, m);
    let (first, second) = (cutting::before(arcs[j], m), cutting::behind(arcs[j], m));
    lemma_chord_points(vertices, arcs, p);
    lemma_chord_points(vertices, other, p);
    assert(other[j] == first && other[j + 1] == second);
    assert(first.point_at(m) == arcs[j].point_at(m) && first.point_at(first.start)
        == arcs[j].point_at(arcs[j].start));
    assert(second.point_at(m) == arcs[j].point_at(m) && second.point_at(second.end)
        == arcs[j].point_at(arcs[j].end));
    if exists|k: int| 0 <= k < arcs.len() && is_end(#[trigger] arcs[k], p) {
        let k = choose|k: int| 0 <= k < arcs.len() && is_end(#[trigger] arcs[k], p);
        if k < j {
            assert(is_end(other[k], p));
        } else if k > j {
            assert(is_end(other[k + 1], p));
        } else {
            assert(is_end(other[j], p) || is_end(other[j + 1], p));
        }
    }
    if p == arcs[j].point_at(m) {
        assert(is_end(other[j], p));
    }
    if exists|k: int| 0 <= k < other.len() && is_end(#[trigger] other[k], p) {
        let k = choose|k: int| 0 <= k < other.len() && is_end(#[trigger] other[k], p);
        if k < j {
            assert(is_end(arcs[k], p));
        } else if k > j + 1 {
            assert(is_end(arcs[k - 1], p));
        } else {
            assert(is_end(arcs[j], p) || p == arcs[j].point_at(m));
        }
    }
}

/// A loop without one of its vertices has its points but that one.
proof fn lemma_inserted(poly: Seq<Vector2<Ideal>>, i: int, q: Vector2<Ideal>)
    requires
        0 <= i <= poly.len(),
        convex::is_convex(poly.insert(i, q)),
        poly.len() >= 2 || circuit::is_simple(poly.insert(i, q)),
        circuit::is_apart(poly.insert(i, q)),
    ensures
        convex::is_convex(poly),
        circuit::is_simple(poly),
        circuit::is_apart(poly),
        forall|p: Vector2<Ideal>| #[trigger]
            poly.insert(i, q).contains(p) == (poly.contains(p) || p == q),
{
    let all = poly.insert(i, q);
    let at = |k: int|
        if k < i {
            k
        } else {
            k + 1
        };
    if all.len() >= 3 {
        lemma_convex_is_simple(all);
    }
    assert forall|k: int| 0 <= k < poly.len() implies loops::is_point(#[trigger] poly[k]) by {
        assert(loops::is_point(all[at(k)]));
    }
    assert forall|x: int, y: int, z: int| 0 <= x < y < z < poly.len() implies #[trigger]
        convex::turn(poly[x], poly[y], poly[z]) > 0real by {
        assert(convex::turn(all[at(x)], all[at(y)], all[at(z)]) > 0real);
    }
    assert forall|x: int, y: int| 0 <= x < y < poly.len() implies #[trigger] poly[x]
        != #[trigger] poly[y] by {
        assert(all[at(x)] != all[at(y)]);
    }
    assert forall|p: Vector2<Ideal>| #[trigger] all.contains(p) == (poly.contains(p) || p
        == q) by {
        if all.contains(p) && p != q {
            let x = choose|x: int| 0 <= x < all.len() && all[x] == p;
            assert(poly[if x < i {
                x
            } else {
                x - 1
            }] == p);
        }
        if poly.contains(p) {
            let x = choose|x: int| 0 <= x < poly.len() && poly[x] == p;
            assert(all[at(x)] == p);
        }
        assert(all[i] == q);
    }
    assert forall|p: Vector2<Ideal>, v: Vector2<Ideal>|
        poly.contains(p) && poly.contains(v) && #[trigger] winding::coincide(p, v) implies p == v by {
        assert(all.contains(p) && all.contains(v));
    }
}

/// The area and the centroid of a convex shape depend on its region, not on how its boundary is cut
/// into arcs: cutting an arc in two leaves them as they are.
pub proof fn law_cut_keeps_convex_shape(
    o: Outline,
    shape: ExtrudedProfile<Ideal>,
    other: ExtrudedProfile<Ideal>,
    i: int,
    j: int,
    m: Ideal,
)
    requires
        o.is_of(shape),
        0 <= i < o.sides.len(),
        0 <= j < shape.arcs@.len(),
        o.sides[i] == Some(shape.arcs@[j]),
        m.side == 0,
        other.profile@ == shape.profile@,
        other.arcs@ == with_cut(shape.arcs@, j, m),
        ({
            let corners = o.corners.insert(i + 1, shape.arcs@[j].point_at(m));
            &&& convex::is_convex(corners)
            &&& o.corners.len() >= 2 || circuit::is_simple(corners)
            &&& circuit::is_apart(corners)
            &&& cutting::is_measured(corners)
        }),
        cutting::is_measured(o.corners),
        forall|k: int| 0 <= k < shape.arcs@.len() ==> cutting::is_counted(#[trigger] shape.arcs@[k]),
        cutting::is_counted(cutting::before(shape.arcs@[j], m)),
        cutting::is_counted(cutting::behind(shape.arcs@[j], m)),
    ensures
        other.exact_area() == shape.exact_area(),
        other.exact_centroid() == shape.exact_centroid(),
{
    let arc = shape.arcs@[j];
    let q = arc.point_at(m);
    let corners = o.corners.insert(i + 1, q);
    lemma_inserted(o.corners, i + 1, q);
    lemma_core_points(o, shape);
    lemma_core(shape, o.corners);
    let (points, others) = (
        profile::chord_points(shape.profile@, shape.arcs@),
        profile::chord_points(other.profile@, other.arcs@),
    );
    assert forall|p: Vector2<Ideal>| #[trigger] others.contains(p) == corners.contains(p) by {
        lemma_cut_points(shape.profile@, shape.arcs@, j, m, p);
        assert(points.contains(p) == o.corners.contains(p));
    }
    lemma_core(other, corners);
    let (a, b) = (
        Stage { core: o.corners, arcs: shape.arcs@ },
        Stage { core: corners, arcs: other.arcs@ },
    );
    assert(o.leads_on(i));
    assert(moving::has_arcs(shape.arcs@)) by {
        assert forall|k: int| 0 <= k < shape.arcs@.len() implies moving::is_arc(
            #[trigger] shape.arcs@[k],
        ) by {
            assert(shape.arcs@.contains(shape.arcs@[k]));
            lemma_same_arcs(o, shape, shape.arcs@[k]);
            let l = choose|l: int|
                0 <= l < o.sides.len() && #[trigger] o.sides[l] == Some(shape.arcs@[k]);
            assert(o.leads_on(l));
        }
    }
    assert forall|k: int| 0 <= k < other.arcs@.len() implies moving::is_arc(
        #[trigger] other.arcs@[k],
    ) && cutting::is_counted(other.arcs@[k]) by {
        if k < j {
            assert(other.arcs@[k] == shape.arcs@[k]);
            assert(moving::is_arc(shape.arcs@[k]));
        } else if k > j + 1 {
            assert(other.arcs@[k] == shape.arcs@[k - 1]);
            assert(moving::is_arc(shape.arcs@[k - 1]));
        } else {
            assert(moving::is_arc(arc));
        }
    }
    assert(a.is_cut(b, i, j, m));
    cutting::law_cut_keeps_region(a, b, i, j, m);
}

/// An arc has as many samples as its part of a turn calls for, in parts of a turn by [`PER_TURN`],
/// rounded up, and two at least.
pub proof fn law_samples_are_enough(arc: ProfileArc<Ideal>)
    requires
        moving::is_arc(arc),
        0real <= arc.swept().v <= angle::full_turn::<Ideal>().v,
    ensures
        ({
            let n = profile::samples(arc).len() as real;
            let (per_turn, turn) = (profile::PER_TURN as real, angle::full_turn::<Ideal>().v);
            &&& n * turn >= arc.swept().v * per_turn
            &&& n >= 2real
            &&& n == 2real || (n - 1real) * turn < arc.swept().v * per_turn
        }),
{
    let (s, t) = (arc.swept().v, angle::full_turn::<Ideal>().v);
    angle::lemma_full_turn::<Ideal>();
    profile::law_two_samples(arc);
    let x = (s / t) * 256real;
    assert(x * t == s * 256real && 0real <= x <= 256real) by (nonlinear_arith)
        requires
            x == (s / t) * 256real,
            t > 0real,
            0real <= s <= t,
    ;
    let f = (-x).floor();
    let c = -f;
    assert(f as real <= -x && -x < f as real + 1real);
    assert(c as real == -(f as real));
    assert(x <= c as real && (c as real) < x + 1real);
    let count = arc.swept().over(angle::full_turn::<Ideal>()).times(
        Ideal::of_count(profile::PER_TURN as nat),
    ).ceiling();
    assert(Ideal::of_count(profile::PER_TURN as nat).v == 256real);
    assert(count == ideal::number(c as real));
    assert(Ideal::of_count(2).v == 2real);
    assert(c <= 256) by {
        assert((c as real) < 257real);
    }
    assert((c as real).floor() == c);
    let n = profile::samples(arc).len();
    assert(n as int == if c > 2 {
        c
    } else {
        2
    });
    let m = n as real;
    assert(m >= x);
    assert(m * t >= x * t) by (nonlinear_arith)
        requires
            m >= x,
            t > 0real,
    ;
    if n > 2 {
        assert(m - 1real < x);
        assert((m - 1real) * t < x * t) by (nonlinear_arith)
            requires
                m - 1real < x,
                t > 0real,
        ;
    }
}

/// Every sample of an arc lies on it, at equal steps from its start towards its end.
pub proof fn law_samples_lie_on_arc(arc: ProfileArc<Ideal>, k: int)
    requires
        moving::is_arc(arc),
        arc.swept().v >= 0real,
        0 <= k < profile::samples(arc).len(),
    ensures
        ({
            let n = profile::samples(arc).len() as real;
            let p = profile::samples(arc)[k];
            let a = arc.start.v + (arc.end.v - arc.start.v) * ((k as real) / n);
            &&& p.x.v == arc.center.x.v + ideal::circle().1(a) * arc.radius.v
            &&& p.y.v == arc.center.y.v + ideal::circle().0(a) * arc.radius.v
        }),
{
    profile::law_two_samples(arc);
}

/// The area of a convex shape is that of the polygon through its corners, and for each arc half of
/// the squared radius times what the sweep exceeds its sine by.
pub proof fn law_area_of_outline(o: Outline, shape: ExtrudedProfile<Ideal>)
    requires
        o.is_of(shape),
        shape.arcs@.len() > 0,
        convex::is_convex(o.corners),
        o.corners.len() >= 3 || circuit::is_simple(o.corners),
        circuit::is_apart(o.corners),
        o.corners.len() < 3 || !polygon::is_flat(o.corners),
        forall|j: int| 0 <= j < shape.arcs@.len() ==> is_wide(#[trigger] shape.arcs@[j]),
        series::sum(loops::edge_values(o.corners, polygon::area_term()), o.corners.len())
            + series::sum(excess(o), o.corners.len()) >= 1real / 1_000_000_000_000_000real,
    ensures
        shape.exact_area().side == 0,
        2real * shape.exact_area().v == series::sum(
            loops::edge_values(o.corners, polygon::area_term()),
            o.corners.len(),
        ) + series::sum(excess(o), o.corners.len()),
{
    loops::lemma_terms();
    let term = polygon::area_term::<Ideal>();
    law_core_is_corners(o, shape);
    loops::lemma_loop_sum(o.corners, term);
    let r = Region::inside(o.corners);
    assert(polygon::half_value::<Ideal>().v == 1real / 2real);
    if o.corners.len() < 3 {
        cutting::lemma_two_vertices(o.corners, term);
    }
    lemma_area_with_arcs(r, shape.arcs@);
    lemma_weights_any_order(shape.arcs@, o.arcs(o.sides.len()));
    lemma_weights_of(o, o.sides.len());
    let n = o.corners.len();
    assert forall|i: int| 0 <= i < n implies #[trigger] bulge(o)(i) == excess(o)(i) by {
        assert(o.leads_on(i));
        if let Some(arc) = o.sides[i] {
            cutting::lemma_sector_area(arc);
        }
    }
    series::lemma_same(bulge(o), excess(o), n);
}

/// Twice what the `i`-th side, if it is an arc, adds to the area over its chord.
pub open spec fn excess(o: Outline) -> spec_fn(int) -> real {
    |i: int|
        match o.sides[i] {
            None => 0real,
            Some(arc) => (arc.radius.v * arc.radius.v) * ((arc.end.v - arc.start.v)
                - ideal::circle().0(arc.end.v - arc.start.v)),
        }
}

/// The sampled boundary of a shape with arcs runs through its vertices and the points that stand for
/// its arcs, and through nothing else.
pub proof fn law_boundary_is_vertices_and_samples(shape: ExtrudedProfile<Ideal>, p: Vector2<Ideal>)
    requires
        shape.arcs@.len() > 0,
    ensures
        shape.boundary().contains(p) == (shape.profile@.contains(p) || exists|j: int|
            0 <= j < shape.arcs@.len() && profile::samples(#[trigger] shape.arcs@[j]).contains(p)),
{
    broadcast use vstd::seq_lib::group_to_multiset_ensures;

    let points = profile::sampled_points(shape.profile@, shape.arcs@);
    let w = shape.boundary();
    winding::law_wound_permutes(points, winding::middle(points));
    assert(w.contains(p) == (w.to_multiset().count(p) > 0));
    assert(points.contains(p) == (points.to_multiset().count(p) > 0));
    lemma_sampled_points(shape.profile@, shape.arcs@, p);
}

} // verus!
