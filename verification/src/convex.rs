//! Convex loops, counter-clockwise: which way caps face, and where sides touch, but for rounding.
use vstd::prelude::*;

use crate::feature;
use crate::feature::{EdgeReach, FeatureView};
use crate::ideal;
use crate::ideal::Ideal;
use crate::loops;
use crate::moving;
use crate::polygon;
use crate::profile::ExtrudedProfile;
use crate::scalar::Scalar;
use crate::series;
use crate::support;
use crate::vector::{Vector, Vector2};

verus! {

/// Twice the area of the triangle from `p` over `q` to `r`: positive if that is a turn to the left.
pub open spec fn turn(p: Vector2<Ideal>, q: Vector2<Ideal>, r: Vector2<Ideal>) -> real {
    (q.x.v - p.x.v) * (r.y.v - p.y.v) - (r.x.v - p.x.v) * (q.y.v - p.y.v)
}

/// Is the loop strictly convex and counter-clockwise? Any three of its vertices, in their order,
/// turn to the left.
pub open spec fn is_convex(poly: Seq<Vector2<Ideal>>) -> bool {
    &&& loops::has_points(poly)
    &&& forall|i: int, j: int, k: int|
        0 <= i < j < k < poly.len() ==> #[trigger] turn(poly[i], poly[j], poly[k]) > 0real
}

/// A turn is what its three edges span with the origin.
pub proof fn lemma_turn(p: Vector2<Ideal>, q: Vector2<Ideal>, r: Vector2<Ideal>)
    requires
        loops::is_point(p),
        loops::is_point(q),
        loops::is_point(r),
    ensures
        turn(p, q, r) == p.outer(q).v + q.outer(r).v + r.outer(p).v,
        turn(q, r, p) == turn(p, q, r),
        turn(r, p, q) == turn(p, q, r),
        turn(r, q, p) == -turn(p, q, r),
{
    lemma_turn_spans(p, q, r);
    lemma_turn_spans(q, r, p);
    lemma_turn_spans(r, p, q);
    lemma_turn_spans(r, q, p);
}

proof fn lemma_turn_spans(p: Vector2<Ideal>, q: Vector2<Ideal>, r: Vector2<Ideal>)
    requires
        loops::is_point(p),
        loops::is_point(q),
        loops::is_point(r),
    ensures
        turn(p, q, r) == p.outer(q).v + q.outer(r).v + r.outer(p).v,
{
    let (a, b, c, d, e, f) = (p.x.v, p.y.v, q.x.v, q.y.v, r.x.v, r.y.v);
    ideal::lemma_dist(f - b, c, a);
    ideal::lemma_dist(d - b, e, a);
    ideal::lemma_dist(c, f, b);
    ideal::lemma_dist(a, f, b);
    ideal::lemma_dist(e, d, b);
    ideal::lemma_dist(a, d, b);
}

pub proof fn lemma_no_turn(p: Vector2<Ideal>, q: Vector2<Ideal>)
    ensures
        turn(p, p, q) == 0real,
        turn(p, q, p) == 0real,
{
    assert((p.x.v - p.x.v) * (q.y.v - p.y.v) == 0real) by (nonlinear_arith);
    assert((q.x.v - p.x.v) * (p.y.v - p.y.v) == 0real) by (nonlinear_arith);
    assert((p.x.v - p.x.v) * (q.y.v - p.y.v) == (q.y.v - p.y.v) * (p.x.v - p.x.v));
}

/// A sum of terms none of which is negative is no smaller than any of them.
proof fn lemma_sum_at_least(f: spec_fn(int) -> real, n: nat, k: int)
    requires
        forall|i: int| 0 <= i < n ==> #[trigger] f(i) >= 0real,
    ensures
        series::sum(f, n) >= 0real,
        0 <= k < n ==> series::sum(f, n) >= f(k),
    decreases n,
{
    if n > 0 {
        lemma_sum_at_least(f, (n - 1) as nat, k);
        assert(f(n - 1) >= 0real);
    }
}

/// A convex counter-clockwise polygon has a positive area.
pub proof fn law_convex_area_is_positive(poly: Seq<Vector2<Ideal>>)
    requires
        is_convex(poly),
        poly.len() >= 3,
    ensures
        polygon::loop_sum(poly, polygon::area_term()).v > 0real,
{
    let n = poly.len();
    let parts = fan(poly, polygon::area_term());
    loops::lemma_terms();
    lemma_fan_sum(poly, polygon::area_term());
    assert forall|i: int| 0 <= i < n implies #[trigger] parts(i) >= 0real by {
        polygon::lemma_next(i, n as int);
        let q = poly[(i + 1) % n as int];
        assert(loops::is_point(poly[0]) && loops::is_point(poly[i]) && loops::is_point(q));
        lemma_turn(poly[0], poly[i], q);
        lemma_no_turn(poly[0], poly[i]);
        lemma_no_turn(poly[0], poly[(i + 1) % n as int]);
        if 0 < i < n - 1 {
            assert(turn(poly[0], poly[i], poly[i + 1]) > 0real);
        }
    }
    lemma_sum_at_least(parts, n, 1);
    polygon::lemma_next(1, n as int);
    assert(loops::is_point(poly[0]) && loops::is_point(poly[1]) && loops::is_point(poly[2]));
    lemma_turn(poly[0], poly[1], poly[2]);
    assert(turn(poly[0], poly[1], poly[2]) > 0real);
    assert(parts(1) > 0real);
}

/// The point with the coordinates that `value` gives those of `p`.
pub open spec fn valued<R>(value: spec_fn(R) -> real, p: Vector2<R>) -> Vector2<Ideal> {
    Vector2 { x: ideal::number(value(p.x)), y: ideal::number(value(p.y)) }
}

/// The loop of real points that `value` makes of one of any scalar.
pub open spec fn valued_loop<R>(
    value: spec_fn(R) -> real,
    poly: Seq<Vector2<R>>,
) -> Seq<Vector2<Ideal>> {
    Seq::new(poly.len(), |i: int| valued(value, poly[i]))
}

/// The corners of a face, in the profile plane, as real points.
pub open spec fn outline<R: Scalar>(
    value: spec_fn(R) -> real,
    f: FeatureView<R>,
) -> Seq<Vector2<Ideal>> {
    Seq::new(f.num_vertices as nat, |k: int| valued(value, f.vertices[k].in_plane()))
}

/// Either cap of a convex profile faces outward: the corners of the upper one run
/// counter-clockwise, as the boundary does, those of the lower one clockwise. That holds of every
/// scalar, whatever real numbers its values stand for: a cap only picks among the vertices.
pub proof fn law_caps_face_outward<R: Scalar>(
    shape: ExtrudedProfile<R>,
    dir: Vector<R>,
    before: FeatureView<R>,
    value: spec_fn(R) -> real,
)
    requires
        shape.side_arc(dir) is None,
        is_convex(valued_loop(value, shape.boundary())),
        shape.boundary().len() >= 3,
        shape.is_cap(dir),
    ensures
        ({
            let area = polygon::loop_sum(
                outline(value, shape.support_feature(dir, before)),
                polygon::area_term(),
            ).v;
            if R::of_count(0).at_most(dir.y) {
                area > 0real
            } else {
                area < 0real
            }
        }),
{
    let poly = valued_loop(value, shape.boundary());
    let n = poly.len();
    let c = feature::cap_count(n);
    let up = R::of_count(0).at_most(dir.y);
    let f = shape.support_feature(dir, before);
    assert(f == shape.cap_face(before, dir));
    let o = outline(value, f);
    assert forall|k: int| 0 <= k < c implies #[trigger] o[k] == poly[feature::cap_index(
        n,
        k as nat,
        up,
    ) as int] by {
        feature::law_cap_spreads(n, k as nat);
        feature::law_cap_reverses(n, k as nat);
        if k > 0 {
            feature::law_cap_corners_differ(n, 0, k as nat, up);
        }
    }
    assert(o =~= Seq::new(c, |k: int| poly[feature::cap_index(n, k as nat, up) as int]));
    if up {
        assert(is_convex(o)) by {
            lemma_upper_cap(poly, o);
        }
        law_convex_area_is_positive(o);
    } else {
        let r = loops::rotated(o.reverse(), c - 1);
        lemma_lower_cap(poly, o, r);
        law_convex_area_is_positive(r);
        assert(loops::has_points(o)) by {
            assert forall|k: int| 0 <= k < o.len() implies loops::is_point(#[trigger] o[k]) by {
                feature::law_cap_spreads(n, k as nat);
                feature::law_cap_reverses(n, k as nat);
                assert(loops::is_point(poly[feature::cap_index(n, k as nat, false) as int]));
            }
        }
        assert(loops::has_points(o.reverse())) by {
            assert forall|k: int| 0 <= k < o.len() implies loops::is_point(
                #[trigger] o.reverse()[k],
            ) by {
                assert(loops::is_point(o[o.len() - 1 - k]));
            }
        }
        loops::lemma_terms();
        loops::lemma_reversed_sum(o, polygon::area_term());
        loops::lemma_rotated_sum(o.reverse(), polygon::area_term(), (c - 1) as nat);
    }
}

proof fn lemma_upper_cap(poly: Seq<Vector2<Ideal>>, o: Seq<Vector2<Ideal>>)
    requires
        is_convex(poly),
        poly.len() >= 3,
        o == Seq::new(
            feature::cap_count(poly.len()),
            |k: int| poly[feature::cap_index(poly.len(), k as nat, true) as int],
        ),
    ensures
        is_convex(o),
{
    let n = poly.len();
    assert forall|k: int| 0 <= k < o.len() implies loops::is_point(#[trigger] o[k]) by {
        feature::law_cap_spreads(n, k as nat);
        assert(loops::is_point(poly[feature::cap_index(n, k as nat, true) as int]));
    }
    assert forall|i: int, j: int, k: int| 0 <= i < j < k < o.len() implies #[trigger] turn(
        o[i],
        o[j],
        o[k],
    ) > 0real by {
        feature::law_cap_corners_differ(n, i as nat, j as nat, true);
        feature::law_cap_corners_differ(n, j as nat, k as nat, true);
        let (a, b, c) = (
            feature::cap_index(n, i as nat, true) as int,
            feature::cap_index(n, j as nat, true) as int,
            feature::cap_index(n, k as nat, true) as int,
        );
        assert(turn(poly[a], poly[b], poly[c]) > 0real);
    }
}

proof fn lemma_lower_cap(
    poly: Seq<Vector2<Ideal>>,
    o: Seq<Vector2<Ideal>>,
    r: Seq<Vector2<Ideal>>,
)
    requires
        is_convex(poly),
        poly.len() >= 3,
        o == Seq::new(
            feature::cap_count(poly.len()),
            |k: int| poly[feature::cap_index(poly.len(), k as nat, false) as int],
        ),
        r == loops::rotated(o.reverse(), o.len() - 1),
    ensures
        is_convex(r),
        r.len() >= 3,
{
    let n = poly.len();
    let c = feature::cap_count(n);
    assert(r.len() == c);
    // Going backwards, and from the first corner on, the lower cap takes its vertices in order.
    let at = |k: int|
        if k == 0 {
            0int
        } else {
            n - feature::cap_index(n, (c - k) as nat, true)
        };
    assert forall|k: int| 0 <= k < c implies #[trigger] r[k] == poly[at(k)] && 0 <= at(k) < n by {
        if k == 0 {
            feature::law_cap_reverses(n, 0);
        } else {
            feature::law_cap_reverses(n, (c - k) as nat);
            feature::law_cap_spreads(n, (c - k) as nat);
            feature::law_cap_corners_differ(n, 0, (c - k) as nat, true);
        }
    }
    assert forall|k: int| 0 <= k < r.len() implies loops::is_point(#[trigger] r[k]) by {
        assert(r[k] == poly[at(k)]);
        assert(loops::is_point(poly[at(k)]));
    }
    assert forall|i: int, j: int, k: int| 0 <= i < j < k < r.len() implies #[trigger] turn(
        r[i],
        r[j],
        r[k],
    ) > 0real by {
        feature::law_cap_corners_differ(n, (c - k) as nat, (c - j) as nat, true);
        feature::law_cap_spreads(n, (c - j) as nat);
        if i > 0 {
            feature::law_cap_corners_differ(n, (c - j) as nat, (c - i) as nat, true);
        }
        assert(r[i] == poly[at(i)] && r[j] == poly[at(j)] && r[k] == poly[at(k)]);
        assert(turn(poly[at(i)], poly[at(j)], poly[at(k)]) > 0real);
    }
}

/// Scaling multiplies every turn alike.
proof fn lemma_scaled_turn(
    p: Vector2<Ideal>,
    q: Vector2<Ideal>,
    r: Vector2<Ideal>,
    x: real,
    z: real,
)
    ensures
        ({
            let map = |p: Vector2<Ideal>|
                Vector2 { x: ideal::number(p.x.v * x), y: ideal::number(p.y.v * z) };
            turn(map(p), map(q), map(r)) == (x * z) * turn(p, q, r)
        }),
{
    let (a, b, c, d) = (q.x.v - p.x.v, r.y.v - p.y.v, r.x.v - p.x.v, q.y.v - p.y.v);
    ideal::lemma_dist(x, q.x.v, p.x.v);
    ideal::lemma_dist(z, r.y.v, p.y.v);
    ideal::lemma_dist(x, r.x.v, p.x.v);
    ideal::lemma_dist(z, q.y.v, p.y.v);
    assert(q.x.v * x - p.x.v * x == x * a);
    assert(r.y.v * z - p.y.v * z == z * b);
    assert(r.x.v * x - p.x.v * x == x * c);
    assert(q.y.v * z - p.y.v * z == z * d);
    ideal::lemma_pairs(x, a, z, b);
    ideal::lemma_pairs(x, c, z, d);
    ideal::lemma_dist(x * z, a * b, c * d);
}

/// A convex counter-clockwise profile stays one under every scale that has no zero in the profile
/// plane, mirrors included.
pub proof fn law_scale_keeps_winding(
    shape: ExtrudedProfile<Ideal>,
    scaled: ExtrudedProfile<Ideal>,
    scale: Vector<Ideal>,
)
    requires
        is_convex(shape.profile@),
        scaled.is_scaled(shape, scale),
        scale.x.side == 0 && scale.z.side == 0,
        scale.x.v != 0real && scale.z.v != 0real,
    ensures
        is_convex(scaled.profile@),
        scaled.profile@.len() == shape.profile@.len(),
{
    let poly = shape.profile@;
    let n = poly.len();
    let (x, z) = (scale.x.v, scale.z.v);
    let mirrored = ExtrudedProfile::<Ideal>::mirrors(scale);
    loops::lemma_mirrors(scale);
    let other = scaled.profile@;
    assert(x * z != 0real) by (nonlinear_arith)
        requires
            x != 0real,
            z != 0real,
    ;
    let at = |i: int|
        if mirrored {
            n - 1 - i
        } else {
            i
        };
    assert forall|i: int| 0 <= i < n implies #[trigger] other[i] == (Vector2 {
        x: ideal::number(poly[at(i)].x.v * x),
        y: ideal::number(poly[at(i)].y.v * z),
    }) by {
        assert(loops::is_point(poly[at(i)]));
    }
    assert(loops::has_points(other));
    assert forall|i: int, j: int, k: int| 0 <= i < j < k < n implies #[trigger] turn(
        other[i],
        other[j],
        other[k],
    ) > 0real by {
        let (p, q, r) = (poly[at(i)], poly[at(j)], poly[at(k)]);
        lemma_scaled_turn(p, q, r, x, z);
        assert(other[i].x.v == p.x.v * x);
        assert(loops::is_point(p) && loops::is_point(q) && loops::is_point(r));
        lemma_turn(p, q, r);
        let t = turn(p, q, r);
        if mirrored {
            assert(turn(r, q, p) > 0real);
            assert((x * z) * t > 0real) by (nonlinear_arith)
                requires
                    x * z < 0real,
                    t < 0real,
            ;
        } else {
            assert((x * z) * t > 0real) by (nonlinear_arith)
                requires
                    x * z > 0real,
                    t > 0real,
            ;
        }
    }
}

/// How an edge `e` and another one `f` stand to each other and to a direction `d`: what `f` and its
/// normal have of `d` follows from what `e` and its normal have of it.
proof fn lemma_frame(ex: real, ey: real, fx: real, fy: real, dx: real, dy: real)
    ensures
        ({
            let l = ex * ex + ey * ey;
            let (a, b) = (ey * dx - ex * dy, ex * dx + ey * dy);
            let (x, y) = (ex * fy - fx * ey, ex * fx + ey * fy);
            &&& l * (fx * dx + fy * dy) == b * y - a * x
            &&& l * (fy * dx - fx * dy) == b * x + a * y
            &&& l * (fx * fx + fy * fy) == x * x + y * y
        }),
{
    // Each of the eight products of four factors, brought into one order.
    ideal::lemma_foil(ex * ex, ey * ey, fx * dx, fy * dy);
    ideal::lemma_foil(ex * ex, ey * ey, fy * dx, fx * dy);
    ideal::lemma_foil(ex * ex, ey * ey, fx * fx, fy * fy);
    ideal::lemma_foil(ex * dx, ey * dy, ex * fx, ey * fy);
    ideal::lemma_foil(ey * dx, ex * dy, ex * fy, fx * ey);
    ideal::lemma_foil(ex * dx, ey * dy, ex * fy, fx * ey);
    ideal::lemma_foil(ey * dx, ex * dy, ex * fx, ey * fy);
    ideal::lemma_foil(ex * fy, fx * ey, ex * fy, fx * ey);
    ideal::lemma_foil(ex * fx, ey * fy, ex * fx, ey * fy);
    ideal::lemma_pairs(ex, dx, ex, fx);
    ideal::lemma_pairs(ex, dx, ey, fy);
    ideal::lemma_pairs(ey, dy, ex, fx);
    ideal::lemma_pairs(ey, dy, ey, fy);
    ideal::lemma_pairs(ey, dx, ex, fy);
    ideal::lemma_pairs(ey, dx, ey, fx);
    ideal::lemma_pairs(ex, dy, ex, fy);
    ideal::lemma_pairs(ex, dy, ey, fx);
    ideal::lemma_pairs(ex, dx, ex, fy);
    ideal::lemma_pairs(ex, dx, ey, fx);
    ideal::lemma_pairs(ey, dy, ex, fy);
    ideal::lemma_pairs(ey, dy, ey, fx);
    ideal::lemma_pairs(ey, dx, ex, fx);
    ideal::lemma_pairs(ey, dx, ey, fy);
    ideal::lemma_pairs(ex, dy, ex, fx);
    ideal::lemma_pairs(ex, dy, ey, fy);
    ideal::lemma_pairs(ex, fy, ex, fy);
    ideal::lemma_pairs(ex, fy, ey, fx);
    ideal::lemma_pairs(ey, fx, ey, fx);
    ideal::lemma_pairs(ex, fx, ex, fx);
    ideal::lemma_pairs(ex, fx, ey, fy);
    ideal::lemma_pairs(ey, fy, ey, fy);
    ideal::lemma_pairs(ey, fx, ex, fy);
    ideal::lemma_pairs(ey, fy, ex, fx);
}

/// Of two edges that turn to the left, if going on along the second one still leads towards the
/// direction, the second one faces it better.
proof fn lemma_better_edge(
    a: real,
    b: real,
    c: real,
    e: real,
    x: real,
    y: real,
    l: real,
    m: real,
)
    requires
        l > 0real,
        m > 0real,
        a > 0real,
        b >= 0real,
        x > 0real,
        e > 0real,
        (l * l) * e == b * y - a * x,
        (l * l) * c == b * x + a * y,
        (l * l) * (m * m) == x * x + y * y,
    ensures
        c * l > a * m,
{
    let ll = l * l;
    lemma_sign(l, l);
    lemma_sign(ll, e);
    lemma_sign(a, x);
    // The second edge does not turn back.
    assert(y > 0real) by {
        if y <= 0real {
            lemma_sign_mixed(b, y);
        }
    }
    lemma_sign(a, y);
    lemma_sign(b, x);
    lemma_sign(y, y);
    lemma_sign(x, x);
    // c y > a m m.
    assert(c * y > a * (m * m)) by {
        ideal::lemma_dist(y, b * x, a * y);
        ideal::lemma_assoc(y, ll, c);
        ideal::lemma_assoc(x, b, y);
        ideal::lemma_assoc(x, a, x);
        ideal::lemma_assoc(y, a, y);
        ideal::lemma_assoc(y, b, x);
        ideal::lemma_assoc(a, x, x);
        ideal::lemma_assoc(a, y, y);
        ideal::lemma_dist(a, x * x, y * y);
        ideal::lemma_dist(x, b * y, a * x);
        lemma_sign(x, b * y - a * x);
        ideal::lemma_assoc(a, ll, m * m);
        assert(ll * (c * y) > ll * (a * (m * m)));
        lemma_cancel(ll, c * y, a * (m * m));
    }
    // y < l m.
    assert(y < l * m) by {
        ideal::lemma_pairs(l, m, l, m);
        lemma_sign(l, m);
        lemma_root_order(y, l * m);
    }
    assert(c > 0real) by {
        lemma_sign(m, m);
        lemma_sign(a, m * m);
        if c <= 0real {
            lemma_sign_mixed(y, c);
        }
    }
    assert(c * (l * m) > a * (m * m)) by {
        lemma_cancel_back(c, y, l * m);
    }
    ideal::lemma_assoc(m, c, l);
    ideal::lemma_assoc(m, a, m);
    assert(m * (c * l) > m * (a * m));
    lemma_cancel(m, c * l, a * m);
}

proof fn lemma_sign(x: real, y: real)
    by (nonlinear_arith)
    ensures
        x > 0real && y > 0real ==> x * y > 0real,
        x >= 0real && y >= 0real ==> x * y >= 0real,
{
}

proof fn lemma_sign_mixed(x: real, y: real)
    by (nonlinear_arith)
    requires
        x >= 0real,
        y <= 0real,
    ensures
        x * y <= 0real,
{
}

proof fn lemma_cancel(k: real, x: real, y: real)
    by (nonlinear_arith)
    requires
        k > 0real,
        k * x > k * y,
    ensures
        x > y,
{
}

proof fn lemma_cancel_back(k: real, x: real, y: real)
    by (nonlinear_arith)
    requires
        k > 0real,
        x < y,
    ensures
        k * x < k * y,
{
}

proof fn lemma_root_order(x: real, y: real)
    by (nonlinear_arith)
    requires
        x > 0real,
        y > 0real,
        x * x < y * y,
    ensures
        x < y,
{
}

/// A turn, by the two edges that make it.
proof fn lemma_turn_of_edges(p: Vector2<Ideal>, q: Vector2<Ideal>, r: Vector2<Ideal>)
    ensures
        turn(p, q, r) == (q.x.v - p.x.v) * (r.y.v - q.y.v) - (r.x.v - q.x.v) * (q.y.v - p.y.v),
{
    let (ex, ey) = (q.x.v - p.x.v, q.y.v - p.y.v);
    let (fx, fy) = (r.x.v - q.x.v, r.y.v - q.y.v);
    assert(r.y.v - p.y.v == fy + ey);
    assert(r.x.v - p.x.v == fx + ex);
    ideal::lemma_dist(ex, fy, ey);
    ideal::lemma_dist(ey, fx, ex);
}

/// Between the edge `e` that leads to a vertex and the edge `f` that leaves it, everything of the
/// profile lies where neither leads: `v` reaches no further than the vertex itself.
proof fn lemma_cone(
    ex: real,
    ey: real,
    fx: real,
    fy: real,
    vx: real,
    vy: real,
    dx: real,
    dy: real,
)
    requires
        ex * fy - fx * ey > 0real,
        ex * vy - vx * ey >= 0real,
        fx * vy - vx * fy >= 0real,
        ex * dx + ey * dy >= 0real,
        fx * dx + fy * dy <= 0real,
    ensures
        vx * dx + vy * dy <= 0real,
{
    let x = ex * fy - fx * ey;
    let s = ex * vy - vx * ey;
    let r = fx * vy - vx * fy;
    let (b, e) = (ex * dx + ey * dy, fx * dx + fy * dy);
    // x v == s f - r e, coordinate by coordinate.
    assert(x * vx == s * fx - r * ex) by {
        ideal::lemma_dist(vx, ex * fy, fx * ey);
        ideal::lemma_dist(fx, ex * vy, vx * ey);
        ideal::lemma_dist(ex, fx * vy, vx * fy);
        ideal::lemma_assoc(vx, ex, fy);
        ideal::lemma_assoc(vx, fx, ey);
        ideal::lemma_assoc(fx, ex, vy);
        ideal::lemma_assoc(fx, vx, ey);
        ideal::lemma_assoc(ex, fx, vy);
        ideal::lemma_assoc(ex, vx, fy);
    }
    assert(x * vy == s * fy - r * ey) by {
        ideal::lemma_dist(vy, ex * fy, fx * ey);
        ideal::lemma_dist(fy, ex * vy, vx * ey);
        ideal::lemma_dist(ey, fx * vy, vx * fy);
        ideal::lemma_assoc(vy, ex, fy);
        ideal::lemma_assoc(vy, fx, ey);
        ideal::lemma_assoc(fy, ex, vy);
        ideal::lemma_assoc(fy, vx, ey);
        ideal::lemma_assoc(ey, fx, vy);
        ideal::lemma_assoc(ey, vx, fy);
    }
    let v = vx * dx + vy * dy;
    assert(x * v == s * e - r * b) by {
        ideal::lemma_dist(x, vx * dx, vy * dy);
        ideal::lemma_assoc(x, vx, dx);
        ideal::lemma_assoc(x, vy, dy);
        ideal::lemma_dist(dx, s * fx, r * ex);
        ideal::lemma_dist(dy, s * fy, r * ey);
        ideal::lemma_assoc(s, fx, dx);
        ideal::lemma_assoc(s, fy, dy);
        ideal::lemma_assoc(r, ex, dx);
        ideal::lemma_assoc(r, ey, dy);
        ideal::lemma_dist(s, fx * dx, fy * dy);
        ideal::lemma_dist(r, ex * dx, ey * dy);
    }
    lemma_sign_mixed(s, e);
    lemma_sign(r, b);
    if v > 0real {
        lemma_sign(x, v);
    }
}

/// Every vertex of a convex loop lies to the left of every edge, or is one of its ends.
pub proof fn lemma_left(poly: Seq<Vector2<Ideal>>, i: int, k: int)
    requires
        is_convex(poly),
        poly.len() >= 3,
        0 <= i < poly.len(),
        0 <= k < poly.len(),
    ensures
        turn(poly[i], poly[(i + 1) % poly.len() as int], poly[k]) >= 0real,
        k != i && k != (i + 1) % poly.len() as int ==> turn(
            poly[i],
            poly[(i + 1) % poly.len() as int],
            poly[k],
        ) > 0real,
{
    let n = poly.len() as int;
    let j = (i + 1) % n;
    polygon::lemma_next(i, n);
    assert(loops::is_point(poly[i]) && loops::is_point(poly[j]) && loops::is_point(poly[k]));
    lemma_turn(poly[i], poly[j], poly[k]);
    lemma_no_turn(poly[i], poly[j]);
    lemma_no_turn(poly[j], poly[i]);
    if k == j {
        lemma_turn(poly[j], poly[j], poly[i]);
    } else if k != i {
        if j == 0 {
            assert(turn(poly[j], poly[k], poly[i]) > 0real);
            lemma_turn(poly[j], poly[k], poly[i]);
        } else if k < i {
            assert(turn(poly[k], poly[i], poly[j]) > 0real);
        } else {
            assert(turn(poly[i], poly[j], poly[k]) > 0real);
        }
    }
}

/// The edge of the loop from its `i`-th vertex on.
pub open spec fn normal_at(poly: Seq<Vector2<Ideal>>, i: int) -> Vector2<Ideal> {
    feature::edge_normal(poly[i], poly[(i + 1) % poly.len() as int])
}

/// How well the edge from the `i`-th vertex on faces `d`.
pub open spec fn facing_at(poly: Seq<Vector2<Ideal>>, i: int, d: Vector2<Ideal>) -> Ideal {
    normal_at(poly, i).inner(d).over(normal_at(poly, i).norm())
}

/// Has every edge of the loop a length, large enough to count?
pub open spec fn has_lengths(poly: Seq<Vector2<Ideal>>) -> bool {
    forall|i: int|
        0 <= i < poly.len() ==> {
            let normal = #[trigger] normal_at(poly, i);
            ideal::is_root(normal.norm().v, normal.inner(normal).v) && !normal.norm().at_most(
                Ideal::epsilon_value(),
            )
        }
}

/// The reach of a vertex in the direction `d`.
pub open spec fn reach(p: Vector2<Ideal>, d: Vector2<Ideal>) -> real {
    p.x.v * d.x.v + p.y.v * d.y.v
}

/// Where a vertex is passed on the way to what the direction faces, everything else is behind it.
proof fn lemma_summit(
    poly: Seq<Vector2<Ideal>>,
    d: Vector2<Ideal>,
    h: int,
    k: int,
)
    requires
        is_convex(poly),
        poly.len() >= 3,
        0 <= h < poly.len(),
        0 <= k < poly.len(),
        ({
            let i = (h + 1) % poly.len() as int;
            let j = (i + 1) % poly.len() as int;
            reach(poly[h], d) <= reach(poly[i], d) && reach(poly[j], d) <= reach(poly[i], d)
        }),
    ensures
        reach(poly[k], d) <= reach(poly[(h + 1) % poly.len() as int], d),
{
    let n = poly.len() as int;
    let i = (h + 1) % n;
    polygon::lemma_next(h, n);
    let j = (i + 1) % n;
    polygon::lemma_next(i, n);
    let (p, q, r, s) = (poly[h], poly[i], poly[j], poly[k]);
    lemma_left(poly, h, j);
    lemma_left(poly, h, k);
    lemma_left(poly, i, k);
    lemma_turn_of_edges(p, q, r);
    lemma_turn_of_edges(p, q, s);
    let (dx, dy) = (d.x.v, d.y.v);
    ideal::lemma_dist(dx, q.x.v, p.x.v);
    ideal::lemma_dist(dy, q.y.v, p.y.v);
    ideal::lemma_dist(dx, r.x.v, q.x.v);
    ideal::lemma_dist(dy, r.y.v, q.y.v);
    ideal::lemma_dist(dx, s.x.v, q.x.v);
    ideal::lemma_dist(dy, s.y.v, q.y.v);
    lemma_cone(
        q.x.v - p.x.v,
        q.y.v - p.y.v,
        r.x.v - q.x.v,
        r.y.v - q.y.v,
        s.x.v - q.x.v,
        s.y.v - q.y.v,
        dx,
        dy,
    );
}

/// An edge that faces a direction no worse than another one, crosswise.
proof fn lemma_faces_no_worse(a: real, l: real, c: real, m: real)
    requires
        l > 0real,
        m > 0real,
        c / m <= a / l,
    ensures
        c * l <= a * m,
{
    let (p, q) = (a / l, c / m);
    assert(p * l == a) by (nonlinear_arith)
        requires
            p == a / l,
            l > 0real,
    ;
    assert(q * m == c) by (nonlinear_arith)
        requires
            q == c / m,
            m > 0real,
    ;
    ideal::lemma_assoc(q, m, l);
    ideal::lemma_assoc(p, l, m);
    lemma_sign(m, l);
    lemma_sign(m * l, p - q);
    ideal::lemma_dist(m * l, p, q);
}

/// The edge that faces a direction best has a vertex that reaches furthest in it.
proof fn lemma_best_edge_holds_support(
    poly: Seq<Vector2<Ideal>>,
    d: Vector2<Ideal>,
    i: int,
)
    requires
        is_convex(poly),
        poly.len() >= 3,
        loops::is_point(d),
        has_lengths(poly),
        0 <= i < poly.len(),
        facing_at(poly, i, d).v > 0real,
        forall|j: int|
            0 <= j < poly.len() ==> (#[trigger] facing_at(poly, j, d)).v <= facing_at(
                poly,
                i,
                d,
            ).v,
    ensures
        (forall|k: int|
            0 <= k < poly.len() ==> reach(#[trigger] poly[k], d) <= reach(poly[i], d)) || (forall|
            k: int,
        |
            0 <= k < poly.len() ==> reach(#[trigger] poly[k], d) <= reach(
                poly[(i + 1) % poly.len() as int],
                d,
            )),
{
    let n = poly.len() as int;
    let j = (i + 1) % n;
    polygon::lemma_next(i, n);
    let (p, q) = (poly[i], poly[j]);
    let (dx, dy) = (d.x.v, d.y.v);
    let (ex, ey) = (q.x.v - p.x.v, q.y.v - p.y.v);
    let l = normal_at(poly, i).norm().v;
    lemma_edge_values(poly, d, i);
    let (a, b) = (ey * dx - ex * dy, ex * dx + ey * dy);
    assert(a > 0real) by {
        if a <= 0real {
            assert(a / l <= 0real) by (nonlinear_arith)
                requires
                    a <= 0real,
                    l > 0real,
            ;
        }
    }
    ideal::lemma_dist(dx, q.x.v, p.x.v);
    ideal::lemma_dist(dy, q.y.v, p.y.v);
    assert(b == reach(q, d) - reach(p, d));
    if b >= 0real {
        let m = (j + 1) % n;
        polygon::lemma_next(j, n);
        let r = poly[m];
        let (fx, fy) = (r.x.v - q.x.v, r.y.v - q.y.v);
        lemma_edge_values(poly, d, j);
        ideal::lemma_dist(dx, r.x.v, q.x.v);
        ideal::lemma_dist(dy, r.y.v, q.y.v);
        lemma_left(poly, i, m);
        lemma_turn_of_edges(p, q, r);
        lemma_frame(ex, ey, fx, fy, dx, dy);
        let (c, e) = (fy * dx - fx * dy, fx * dx + fy * dy);
        let len = normal_at(poly, j).norm().v;
        assert(facing_at(poly, j, d).v <= facing_at(poly, i, d).v);
        lemma_faces_no_worse(a, l, c, len);
        if e > 0real {
            lemma_better_edge(
                a,
                b,
                c,
                e,
                ex * fy - fx * ey,
                ex * fx + ey * fy,
                l,
                len,
            );
        }
        assert forall|k: int| 0 <= k < n implies reach(#[trigger] poly[k], d) <= reach(q, d) by {
            lemma_summit(poly, d, i, k);
        }
    } else {
        let h = if i == 0 {
            n - 1
        } else {
            i - 1
        };
        polygon::lemma_next(h, n);
        assert((h + 1) % n == i);
        let o = poly[h];
        let (gx, gy) = (p.x.v - o.x.v, p.y.v - o.y.v);
        lemma_edge_values(poly, d, h);
        ideal::lemma_dist(dx, p.x.v, o.x.v);
        ideal::lemma_dist(dy, p.y.v, o.y.v);
        lemma_left(poly, h, j);
        lemma_turn_of_edges(o, p, q);
        lemma_frame(ex, ey, gx, gy, dx, dy);
        let (c, e) = (gy * dx - gx * dy, gx * dx + gy * dy);
        let len = normal_at(poly, h).norm().v;
        assert(facing_at(poly, h, d).v <= facing_at(poly, i, d).v);
        lemma_faces_no_worse(a, l, c, len);
        let x = ex * gy - gx * ey;
        let y = ex * gx + ey * gy;
        if e < 0real {
            ideal::lemma_dist(l * l, e, 0real);
            ideal::lemma_dist(y, b, 0real);
            ideal::lemma_dist(a, x, 0real);
            ideal::lemma_dist(x, b, 0real);
            ideal::lemma_dist(-b, x, 0real);
            ideal::lemma_dist(x, -b, 0real);
            ideal::lemma_dist(-x, -x, 0real);
            ideal::lemma_dist(-x, x, 0real);
            ideal::lemma_dist(x, x, 0real);
            lemma_better_edge(a, -b, c, -e, -x, y, l, len);
        }
        assert forall|k: int| 0 <= k < n implies reach(#[trigger] poly[k], d) <= reach(p, d) by {
            lemma_summit(poly, d, h, k);
        }
    }
}

/// The normal of an edge, by its coordinates.
proof fn lemma_edge_values(poly: Seq<Vector2<Ideal>>, d: Vector2<Ideal>, i: int)
    requires
        is_convex(poly),
        poly.len() >= 3,
        loops::is_point(d),
        has_lengths(poly),
        0 <= i < poly.len(),
    ensures
        ({
            let (p, q) = (poly[i], poly[(i + 1) % poly.len() as int]);
            let (ex, ey) = (q.x.v - p.x.v, q.y.v - p.y.v);
            let l = normal_at(poly, i).norm().v;
            &&& l > 0real
            &&& l * l == ex * ex + ey * ey
            &&& facing_at(poly, i, d).v == (ey * d.x.v - ex * d.y.v) / l
            &&& facing_at(poly, i, d).side == 0
        }),
{
    polygon::lemma_next(i, poly.len() as int);
    let (p, q) = (poly[i], poly[(i + 1) % poly.len() as int]);
    assert(loops::is_point(p) && loops::is_point(q));
    let (ex, ey) = (q.x.v - p.x.v, q.y.v - p.y.v);
    let normal = normal_at(poly, i);
    assert(normal.x.v == ey && normal.y.v == -ex);
    ideal::lemma_dist(d.y.v, ex, 0real);
    ideal::lemma_dist(-ex, ex, 0real);
    ideal::lemma_dist(ex, ex, 0real);
    assert(ideal::is_root(normal.norm().v, normal.inner(normal).v));
}

/// The edge that is picked is picked for how well it faces the direction.
proof fn lemma_picked(poly: Seq<Vector2<Ideal>>, d: Vector2<Ideal>, count: nat)
    requires
        count <= poly.len() <= usize::MAX,
    ensures
        ({
            let best = EdgeReach::of_edges(poly, d, count);
            best.dot == Ideal::neg_infinity_value() || (best.index < count && best.dot == facing_at(
                poly,
                best.index as int,
                d,
            ))
        }),
    decreases count,
{
    if count > 0 {
        lemma_picked(poly, d, (count - 1) as nat);
    }
}

/// How far a point of space reaches in the direction `dir`.
pub open spec fn extent(p: Vector<Ideal>, dir: Vector<Ideal>) -> real {
    p.x.v * dir.x.v + p.y.v * dir.y.v + p.z.v * dir.z.v
}

/// The features and the support function of a convex profile agree: where the feature towards a
/// direction is a side, the furthest of its corners reaches exactly as far as the support point.
pub proof fn law_side_holds_support(
    shape: ExtrudedProfile<Ideal>,
    dir: Vector<Ideal>,
    before: FeatureView<Ideal>,
)
    requires
        shape.arcs@.len() == 0,
        is_convex(shape.profile@),
        3 <= shape.profile@.len() <= usize::MAX,
        has_lengths(shape.profile@),
        dir.x.side == 0 && dir.y.side == 0 && dir.z.side == 0,
        shape.half_depth.side == 0 && shape.half_depth.v >= 0real,
        !shape.is_cap(dir),
    ensures
        ({
            let f = shape.support_feature(dir, before);
            let s = extent(shape.support(dir), dir);
            &&& f.num_vertices == 4
            &&& forall|k: int| 0 <= k < 4 ==> extent(#[trigger] f.vertices[k], dir) <= s
            &&& exists|k: int| 0 <= k < 4 && extent(#[trigger] f.vertices[k], dir) == s
        }),
{
    let poly = shape.profile@;
    let n = poly.len() as int;
    let d = dir.in_plane();
    let best = EdgeReach::of_loop(poly, d);
    let i = best.index as int;
    assert(shape.side_arc(dir) is None) by {
        reveal_with_fuel(feature::first_facing, 2);
    }
    assert(shape.boundary() == poly);
    lemma_picked(poly, d, poly.len());
    assert(best.dot == facing_at(poly, i, d));
    lemma_edge_values(poly, d, i);
    assert forall|j: int| 0 <= j < n implies (#[trigger] facing_at(poly, j, d)).v <= facing_at(
        poly,
        i,
        d,
    ).v by {
        lemma_edge_values(poly, d, j);
        assert(!normal_at(poly, j).norm().at_most(Ideal::epsilon_value()));
        feature::law_best_edge(poly, d, j);
    }
    lemma_best_edge_holds_support(poly, d, i);
    let j = (i + 1) % n;
    polygon::lemma_next(i, n);
    let f = shape.side_face(i as nat);
    assert(shape.support_feature(dir, before) == f);
    // The support point is a vertex, and none reaches beyond it.
    assert(poly.contains(poly[i]) && poly.contains(poly[j]));
    assert(loops::is_point(poly[i]) && loops::is_point(poly[j]));
    let s = shape.plane_support(d);
    support::law_support_is_offered(shape, d, poly[i]);
    support::law_support_is_furthest(shape, d, poly[i]);
    support::law_support_is_furthest(shape, d, poly[j]);
    assert(poly.contains(s));
    let k = choose|k: int| 0 <= k < n && poly[k] == s;
    assert(loops::is_point(poly[k]));
    assert(reach(poly[k], d) <= reach(poly[i], d) || reach(poly[k], d) <= reach(poly[j], d));
    assert(s.inner(d).v == reach(s, d));
    assert(poly[i].inner(d).v == reach(poly[i], d));
    assert(poly[j].inner(d).v == reach(poly[j], d));
    // Along the sweep, the support point lies on the cap that the direction points to.
    let (h, y) = (shape.half_depth.v, dir.y.v);
    ideal::lemma_dist(y, h, 0real);
    ideal::lemma_dist(-h, y, 0real);
    assert((-h) * y == -(h * y));
    if y >= 0real {
        lemma_sign(h, y);
    } else {
        lemma_sign_mixed(h, y);
    }
    assert(f.vertices[0] == Vector::over_plane(poly[i], shape.half_depth.negated()));
    assert(extent(f.vertices[0], dir) == reach(poly[i], d) - h * y);
    assert(extent(f.vertices[1], dir) == reach(poly[j], d) - h * y);
    assert(extent(f.vertices[2], dir) == reach(poly[j], d) + h * y);
    assert(extent(f.vertices[3], dir) == reach(poly[i], d) + h * y);
    let up = y >= 0real;
    assert(extent(shape.support(dir), dir) == reach(s, d) + if up {
        h * y
    } else {
        -(h * y)
    });
    let pick: int = if reach(poly[i], d) >= reach(poly[j], d) {
        if up {
            3
        } else {
            0
        }
    } else {
        if up {
            2
        } else {
            1
        }
    };
    assert(extent(f.vertices[pick], dir) == extent(shape.support(dir), dir));
    assert forall|k: int| 0 <= k < 4 implies extent(#[trigger] f.vertices[k], dir) <= extent(
        shape.support(dir),
        dir,
    ) by {
        assert(k == 0 || k == 1 || k == 2 || k == 3);
    }
}

/// Of every scalar: where the feature towards a direction is a side, and rounding has not changed
/// which edge faces that way best, no vertex reaches further than the corners of the side.
pub proof fn law_side_reaches_furthest<R: Scalar>(
    shape: ExtrudedProfile<R>,
    dir: Vector<R>,
    before: FeatureView<R>,
    value: spec_fn(R) -> real,
)
    requires
        shape.side_arc(dir) is None,
        !shape.is_cap(dir),
        shape.boundary().len() >= 3,
        is_convex(valued_loop(value, shape.boundary())),
        has_lengths(valued_loop(value, shape.boundary())),
        ({
            let poly = valued_loop(value, shape.boundary());
            let d = valued(value, dir.in_plane());
            let i = EdgeReach::of_loop(shape.boundary(), dir.in_plane()).index as int;
            &&& i < poly.len()
            &&& facing_at(poly, i, d).v > 0real
            &&& forall|j: int|
                0 <= j < poly.len() ==> (#[trigger] facing_at(poly, j, d)).v <= facing_at(
                    poly,
                    i,
                    d,
                ).v
        }),
    ensures
        ({
            let poly = valued_loop(value, shape.boundary());
            let d = valued(value, dir.in_plane());
            let corners = outline(value, shape.support_feature(dir, before));
            &&& corners.len() == 4
            &&& corners[3] == corners[0] && corners[2] == corners[1]
            &&& (forall|k: int|
                0 <= k < poly.len() ==> reach(#[trigger] poly[k], d) <= reach(corners[0], d)) || (
            forall|k: int|
                0 <= k < poly.len() ==> reach(#[trigger] poly[k], d) <= reach(corners[1], d))
        }),
{
    let poly = valued_loop(value, shape.boundary());
    let d = valued(value, dir.in_plane());
    let i = EdgeReach::of_loop(shape.boundary(), dir.in_plane()).index as int;
    polygon::lemma_next(i, poly.len() as int);
    lemma_best_edge_holds_support(poly, d, i);
    let f = shape.side_face(i as nat);
    assert(shape.support_feature(dir, before) == f);
    let corners = outline(value, f);
    assert(corners[0] == poly[i]);
    assert(corners[1] == poly[(i + 1) % poly.len() as int]);
}

/// A sum over the edges of a polygon, as one over the triangles that it is made up of.
proof fn lemma_fan_sum(
    poly: Seq<Vector2<Ideal>>,
    term: spec_fn(Vector2<Ideal>, Vector2<Ideal>) -> Ideal,
)
    requires
        loops::has_points(poly),
        loops::is_directed(term),
        poly.len() > 0,
    ensures
        polygon::loop_sum(poly, term).v == series::sum(fan(poly, term), poly.len()),
{
    let n = poly.len();
    loops::lemma_loop_sum(poly, term);
    let e = loops::edge_values(poly, term);
    let h = |i: int| -term(poly[0], poly[i % n as int]).v;
    let step = |i: int| h(i + 1) - h(i);
    let sum = |i: int| e(i) + step(i);
    assert forall|i: int| 0 <= i < n implies #[trigger] fan(poly, term)(i) == sum(i) by {
        polygon::lemma_next(i, n as int);
        vstd::arithmetic::div_mod::lemma_small_mod(i as nat, n);
        let q = poly[(i + 1) % n as int];
        assert(loops::is_point(poly[0]) && loops::is_point(poly[i]) && loops::is_point(q));
        assert(term(q, poly[0]).v == -term(poly[0], q).v);
    }
    series::lemma_same(fan(poly, term), sum, n);
    series::lemma_plus(e, step, n);
    series::lemma_telescopes(h, n);
    vstd::arithmetic::div_mod::lemma_mod_self_0(n as int);
    vstd::arithmetic::div_mod::lemma_small_mod(0, n);
}

/// What the triangles from the first vertex over each edge add to a sum.
spec fn fan(
    poly: Seq<Vector2<Ideal>>,
    term: spec_fn(Vector2<Ideal>, Vector2<Ideal>) -> Ideal,
) -> spec_fn(int) -> real {
    |i: int|
        {
            let (o, p, q) = (poly[0], poly[i], poly[(i + 1) % poly.len() as int]);
            term(o, p).v + term(p, q).v + term(q, o).v
        }
}

/// The first moments of a triangle: its area times the sum of its corners.
proof fn lemma_triangle(p: Vector2<Ideal>, q: Vector2<Ideal>, r: Vector2<Ideal>)
    requires
        loops::is_point(p),
        loops::is_point(q),
        loops::is_point(r),
    ensures
        polygon::area_term()(p, q).v + polygon::area_term()(q, r).v + polygon::area_term()(r, p).v
            == turn(p, q, r),
        polygon::x_term()(p, q).v + polygon::x_term()(q, r).v + polygon::x_term()(r, p).v == turn(
            p,
            q,
            r,
        ) * (p.x.v + q.x.v + r.x.v),
        polygon::y_term()(p, q).v + polygon::y_term()(q, r).v + polygon::y_term()(r, p).v == turn(
            p,
            q,
            r,
        ) * (p.y.v + q.y.v + r.y.v),
{
    lemma_turn(p, q, r);
    let (a, b, c) = (p.outer(q).v, q.outer(r).v, r.outer(p).v);
    lemma_balance(p.x.v, p.y.v, q.x.v, q.y.v, r.x.v, r.y.v);
    lemma_spread(p.x.v, q.x.v, r.x.v, a, b, c);
    lemma_spread(p.y.v, q.y.v, r.y.v, a, b, c);
}

/// A coordinate of each corner of a triangle, times what the edge across from it spans with the
/// origin, adds up to nothing.
proof fn lemma_balance(a: real, b: real, c: real, d: real, e: real, f: real)
    ensures
        e * (a * d - c * b) + a * (c * f - e * d) + c * (e * b - a * f) == 0real,
        f * (a * d - c * b) + b * (c * f - e * d) + d * (e * b - a * f) == 0real,
{
    ideal::lemma_dist(e, a * d, c * b);
    ideal::lemma_dist(a, c * f, e * d);
    ideal::lemma_dist(c, e * b, a * f);
    ideal::lemma_assoc(e, a, d);
    ideal::lemma_assoc(e, c, b);
    ideal::lemma_assoc(a, c, f);
    ideal::lemma_dist(f, a * d, c * b);
    ideal::lemma_dist(b, c * f, e * d);
    ideal::lemma_dist(d, e * b, a * f);
    ideal::lemma_assoc(f, a, d);
    ideal::lemma_assoc(f, c, b);
    ideal::lemma_assoc(b, e, d);
    ideal::lemma_assoc(b, c, f);
    ideal::lemma_assoc(d, e, b);
    ideal::lemma_assoc(d, a, f);
}

proof fn lemma_spread(x: real, y: real, z: real, a: real, b: real, c: real)
    requires
        z * a + x * b + y * c == 0real,
    ensures
        (x + y) * a + (y + z) * b + (z + x) * c == (a + b + c) * (x + y + z),
{
    let t = x + y + z;
    ideal::lemma_dist(a, x + y, z);
    ideal::lemma_dist(b, y + z, x);
    ideal::lemma_dist(c, z + x, y);
    ideal::lemma_dist(t, a + b, c);
    ideal::lemma_dist(t, a, b);
    assert(t * a == (x + y) * a + z * a);
    assert(t * b == (y + z) * b + x * b);
    assert(t * c == (z + x) * c + y * c);
}

/// The centroid of a convex polygon lies in it: to the left of every edge.
pub proof fn law_centroid_is_inside(poly: Seq<Vector2<Ideal>>, j: int)
    requires
        is_convex(poly),
        poly.len() >= 3,
        0 <= j < poly.len(),
    ensures
        turn(poly[j], poly[(j + 1) % poly.len() as int], polygon::raw_centroid(poly)) > 0real,
        loops::is_point(polygon::raw_centroid(poly)),
{
    let n = poly.len();
    polygon::lemma_next(j, n as int);
    let (p, q) = (poly[j], poly[(j + 1) % n as int]);
    let (ex, ey) = (q.x.v - p.x.v, q.y.v - p.y.v);
    loops::lemma_terms();
    law_convex_area_is_positive(poly);
    lemma_fan_sum(poly, polygon::area_term());
    lemma_fan_sum(poly, polygon::x_term());
    lemma_fan_sum(poly, polygon::y_term());
    loops::lemma_loop_sum(poly, polygon::area_term());
    loops::lemma_loop_sum(poly, polygon::x_term());
    loops::lemma_loop_sum(poly, polygon::y_term());
    let fa = fan(poly, polygon::area_term());
    let fx = fan(poly, polygon::x_term());
    let fy = fan(poly, polygon::y_term());
    let k = ey * p.x.v - ex * p.y.v;
    // How far the corners of the triangles, times their areas, lie to the left of the edge.
    let gy = |i: int| ex * fy(i);
    let gx = |i: int| (-ey) * fx(i);
    let ga = |i: int| (3real * k) * fa(i);
    let g2 = |i: int| gy(i) + gx(i);
    let g = |i: int| g2(i) + ga(i);
    series::lemma_scaled(ex, fy, n);
    series::lemma_scaled(-ey, fx, n);
    series::lemma_scaled(3real * k, fa, n);
    series::lemma_plus(gy, gx, n);
    series::lemma_plus(g2, ga, n);
    assert forall|i: int| 0 <= i < n implies #[trigger] g(i) >= 0real by {
        lemma_fan_left(poly, j, i);
    }
    lemma_fan_left(poly, j, 1);
    assert(g(1) > 0real);
    lemma_sum_at_least(g, n, 1);
    let a = polygon::loop_sum(poly, polygon::area_term()).v;
    let x = polygon::loop_sum(poly, polygon::x_term()).v;
    let y = polygon::loop_sum(poly, polygon::y_term()).v;
    let total = ex * y + (-ey) * x + (3real * k) * a;
    assert(series::sum(g, n) == total);
    assert(total > 0real);
    let c = polygon::raw_centroid(poly);
    let d = 3real * a;
    let (cx, cy) = (x / d, y / d);
    assert(c.x.v == cx && c.y.v == cy);
    assert(cx * d == x) by (nonlinear_arith)
        requires
            cx == x / d,
            d > 0real,
    ;
    assert(cy * d == y) by (nonlinear_arith)
        requires
            cy == y / d,
            d > 0real,
    ;
    let side = ex * cy - ey * cx + k;
    assert(d * side == total) by {
        ideal::lemma_dist(d, ex * cy - ey * cx, k);
        ideal::lemma_dist(d, ex * cy, ey * cx);
        ideal::lemma_assoc(ex, cy, d);
        ideal::lemma_assoc(ey, cx, d);
        ideal::lemma_dist(x, ey, 0real);
        ideal::lemma_dist(-ey, x, 0real);
        ideal::lemma_assoc(3real, k, a);
        assert(d * (ex * cy) == ex * y);
        assert(d * (ey * cx) == ey * x);
        assert((-ey) * x == -(ey * x));
    }
    if side <= 0real {
        lemma_sign_mixed(d, side);
    }
    lemma_turn_line(p, q, c);
}

/// How far `r` lies to the left of the line from `p` to `q`.
proof fn lemma_turn_line(p: Vector2<Ideal>, q: Vector2<Ideal>, r: Vector2<Ideal>)
    ensures
        ({
            let (ex, ey) = (q.x.v - p.x.v, q.y.v - p.y.v);
            turn(p, q, r) == ex * r.y.v - ey * r.x.v + (ey * p.x.v - ex * p.y.v)
        }),
{
    let (ex, ey) = (q.x.v - p.x.v, q.y.v - p.y.v);
    ideal::lemma_dist(ex, r.y.v, p.y.v);
    ideal::lemma_dist(ey, r.x.v, p.x.v);
}

/// Of one triangle: its area times how far its corners lie to the left of an edge.
proof fn lemma_fan_left(poly: Seq<Vector2<Ideal>>, j: int, i: int)
    requires
        is_convex(poly),
        poly.len() >= 3,
        0 <= j < poly.len(),
        0 <= i < poly.len(),
    ensures
        ({
            let n = poly.len() as int;
            let (p, q) = (poly[j], poly[(j + 1) % n]);
            let (ex, ey) = (q.x.v - p.x.v, q.y.v - p.y.v);
            let k = ey * p.x.v - ex * p.y.v;
            let value = ex * fan(poly, polygon::y_term())(i) + (-ey) * fan(
                poly,
                polygon::x_term(),
            )(i) + (3real * k) * fan(poly, polygon::area_term())(i);
            value >= 0real && (i == 1 ==> value > 0real)
        }),
{
    let n = poly.len() as int;
    polygon::lemma_next(j, n);
    polygon::lemma_next(i, n);
    let m = (i + 1) % n;
    let (p, q) = (poly[j], poly[(j + 1) % n]);
    let (o, r, s) = (poly[0], poly[i], poly[m]);
    let (ex, ey) = (q.x.v - p.x.v, q.y.v - p.y.v);
    let k = ey * p.x.v - ex * p.y.v;
    assert(loops::is_point(o) && loops::is_point(r) && loops::is_point(s));
    lemma_triangle(o, r, s);
    let t = turn(o, r, s);
    let (x, y) = (o.x.v + r.x.v + s.x.v, o.y.v + r.y.v + s.y.v);
    let value = ex * (t * y) + (-ey) * (t * x) + (3real * k) * t;
    let left = ex * y - ey * x + 3real * k;
    assert(value == t * left) by {
        ideal::lemma_dist(t, ex * y - ey * x, 3real * k);
        ideal::lemma_dist(t, ex * y, ey * x);
        ideal::lemma_assoc(ex, t, y);
        ideal::lemma_assoc(t, ex, y);
        ideal::lemma_assoc(ey, t, x);
        ideal::lemma_assoc(t, ey, x);
        ideal::lemma_dist(t * x, ey, 0real);
        ideal::lemma_dist(-ey, t * x, 0real);
        assert((-ey) * (t * x) == -(ey * (t * x)));
    }
    lemma_turn_line(p, q, o);
    lemma_turn_line(p, q, r);
    lemma_turn_line(p, q, s);
    ideal::lemma_dist(ex, o.y.v + r.y.v, s.y.v);
    ideal::lemma_dist(ex, o.y.v, r.y.v);
    ideal::lemma_dist(ey, o.x.v + r.x.v, s.x.v);
    ideal::lemma_dist(ey, o.x.v, r.x.v);
    assert(left == turn(p, q, o) + turn(p, q, r) + turn(p, q, s));
    lemma_left(poly, j, 0);
    lemma_left(poly, j, i);
    lemma_left(poly, j, m);
    lemma_no_turn(o, r);
    lemma_no_turn(o, s);
    if 0 < i < n - 1 {
        assert(turn(poly[0], poly[i], poly[i + 1]) > 0real);
    }
    lemma_sign(t, left);
}

/// What an edge adds to the moment of second order across the line along `(-beta, alpha)`.
proof fn lemma_form(
    a: real,
    b: real,
    c: real,
    d: real,
    alpha: real,
    beta: real,
    o: real,
)
    requires
        o >= 0real,
    ensures
        ({
            let xx = (a * a + a * c + c * c) * o;
            let yy = (b * b + b * d + d * d) * o;
            let xy = (a * d + 2real * (a * b) + 2real * (c * d) + c * b) * o;
            (alpha * alpha) * xx + (alpha * beta) * xy + (beta * beta) * yy >= 0real
        }),
{
    let (s, t) = (alpha * a + beta * b, alpha * c + beta * d);
    let (p, q, r) = (alpha * alpha, alpha * beta, beta * beta);
    let wxx = a * a + a * c + c * c;
    let wyy = b * b + b * d + d * d;
    let wxy = a * d + 2real * (a * b) + 2real * (c * d) + c * b;
    let w = p * wxx + q * wxy + r * wyy;
    // The weight is s s + s t + t t.
    ideal::lemma_foil(alpha * a, beta * b, alpha * a, beta * b);
    ideal::lemma_foil(alpha * a, beta * b, alpha * c, beta * d);
    ideal::lemma_foil(alpha * c, beta * d, alpha * c, beta * d);
    ideal::lemma_pairs(alpha, a, alpha, a);
    ideal::lemma_pairs(alpha, a, beta, b);
    ideal::lemma_pairs(beta, b, alpha, a);
    ideal::lemma_pairs(beta, b, beta, b);
    ideal::lemma_pairs(alpha, a, alpha, c);
    ideal::lemma_pairs(alpha, a, beta, d);
    ideal::lemma_pairs(beta, b, alpha, c);
    ideal::lemma_pairs(beta, b, beta, d);
    ideal::lemma_pairs(alpha, c, alpha, c);
    ideal::lemma_pairs(alpha, c, beta, d);
    ideal::lemma_pairs(beta, d, alpha, c);
    ideal::lemma_pairs(beta, d, beta, d);
    ideal::lemma_dist(p, a * a + a * c, c * c);
    ideal::lemma_dist(p, a * a, a * c);
    ideal::lemma_dist(r, b * b + b * d, d * d);
    ideal::lemma_dist(r, b * b, b * d);
    ideal::lemma_dist(q, a * d + 2real * (a * b) + 2real * (c * d), c * b);
    ideal::lemma_dist(q, a * d + 2real * (a * b), 2real * (c * d));
    ideal::lemma_dist(q, a * d, 2real * (a * b));
    ideal::lemma_assoc(2real, q, a * b);
    ideal::lemma_assoc(2real, q, c * d);
    assert(beta * alpha == q);
    assert(b * a == a * b && d * c == c * d && b * c == c * b);
    assert(w == s * s + s * t + t * t);
    // Which is half of (s + t)(s + t) + s s + t t.
    ideal::lemma_foil(s, t, s, t);
    lemma_square(s);
    lemma_square(t);
    lemma_square(s + t);
    assert(w >= 0real);
    lemma_sign(w, o);
    ideal::lemma_dist(o, p * wxx + q * wxy, r * wyy);
    ideal::lemma_dist(o, p * wxx, q * wxy);
    ideal::lemma_assoc(p, wxx, o);
    ideal::lemma_assoc(q, wxy, o);
    ideal::lemma_assoc(r, wyy, o);
}

proof fn lemma_square(x: real)
    by (nonlinear_arith)
    ensures
        x * x >= 0real,
{
}

/// The second moments of a convex polygon about its centroid are those of something: across no
/// line through the centroid do they make a negative moment.
pub proof fn law_moments_are_positive(poly: Seq<Vector2<Ideal>>, alpha: real, beta: real)
    requires
        is_convex(poly),
        poly.len() >= 3,
    ensures
        (alpha * alpha) * polygon::central_xx(poly).v + 2real * ((alpha * beta)
            * polygon::central_xy(poly).v) + (beta * beta) * polygon::central_yy(poly).v >= 0real,
{
    let n = poly.len();
    let c = polygon::raw_centroid(poly);
    law_convex_area_is_positive(poly);
    law_centroid_is_inside(poly, 0);
    let t = Vector2 { x: c.x.negated(), y: c.y.negated() };
    let other = moving::moved(poly, t);
    moving::law_moved_polygon(poly, t);
    assert(polygon::raw_centroid(other) == Vector2::<Ideal>::origin());
    assert(loops::has_points(other)) by {
        assert forall|i: int| 0 <= i < n implies loops::is_point(#[trigger] other[i]) by {
            assert(loops::is_point(poly[i]));
        }
    }
    loops::lemma_terms();
    loops::lemma_loop_sum(other, polygon::area_term());
    loops::lemma_loop_sum(other, polygon::xx_term());
    loops::lemma_loop_sum(other, polygon::yy_term());
    loops::lemma_loop_sum(other, polygon::xy_term());
    let (p, q, r) = (alpha * alpha, alpha * beta, beta * beta);
    let exx = loops::edge_values(other, polygon::xx_term());
    let eyy = loops::edge_values(other, polygon::yy_term());
    let exy = loops::edge_values(other, polygon::xy_term());
    let gx = |i: int| p * exx(i);
    let gm = |i: int| q * exy(i);
    let gy = |i: int| r * eyy(i);
    let g2 = |i: int| gx(i) + gm(i);
    let g = |i: int| g2(i) + gy(i);
    series::lemma_scaled(p, exx, n);
    series::lemma_scaled(q, exy, n);
    series::lemma_scaled(r, eyy, n);
    series::lemma_plus(gx, gm, n);
    series::lemma_plus(g2, gy, n);
    assert forall|i: int| 0 <= i < n implies #[trigger] g(i) >= 0real by {
        polygon::lemma_next(i, n as int);
        let j = (i + 1) % n as int;
        law_centroid_is_inside(poly, i);
        assert(loops::is_point(poly[i]) && loops::is_point(poly[j]));
        let (a, b) = (poly[i].x.v - c.x.v, poly[i].y.v - c.y.v);
        let (e, f) = (poly[j].x.v - c.x.v, poly[j].y.v - c.y.v);
        lemma_turn(poly[i], poly[j], c);
        assert(turn(c, poly[i], poly[j]) == a * f - e * b);
        lemma_form(a, b, e, f, alpha, beta, a * f - e * b);
        ideal::lemma_assoc(2real, a, b);
        ideal::lemma_assoc(2real, e, f);
        assert(other[i].x.v == a && other[i].y.v == b && other[j].x.v == e && other[j].y.v == f);
    }
    lemma_sum_at_least(g, n, -1);
    let (xx, xy, yy) = (
        polygon::loop_sum(other, polygon::xx_term()).v,
        polygon::loop_sum(other, polygon::xy_term()).v,
        polygon::loop_sum(other, polygon::yy_term()).v,
    );
    assert(p * xx + q * xy + r * yy >= 0real);
    // About the origin, where the centroid now is.
    let area = polygon::signed_area(other).v;
    moving::lemma_zero(area);
    moving::lemma_zero(0real);
    ideal::lemma_dist(area, 0real, 0real);
    assert(polygon::central_xx(poly).v == xx / 12real);
    assert(polygon::central_yy(poly).v == yy / 12real);
    assert(polygon::central_xy(poly).v == xy / 24real);
    ideal::lemma_assoc(1real / 12real, p, xx);
    ideal::lemma_assoc(1real / 24real, q, xy);
    ideal::lemma_assoc(1real / 12real, r, yy);
    assert(xx / 12real == (1real / 12real) * xx);
    assert(yy / 12real == (1real / 12real) * yy);
    assert(xy / 24real == (1real / 24real) * xy);
}

} // verus!
