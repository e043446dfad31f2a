//! Convex loops are found again by winding their points, but for rounding.
use vstd::prelude::*;

use crate::convex;
use crate::ideal;
use crate::ideal::Ideal;
use crate::loops;
use crate::polygon;
use crate::scalar::Scalar;
use crate::series;
use crate::vector::Vector2;
use crate::winding;

verus! {

/// Have the two the same points, however often and in whatever order?
pub open spec fn same_points(a: Seq<Vector2<Ideal>>, b: Seq<Vector2<Ideal>>) -> bool {
    forall|p: Vector2<Ideal>| #[trigger] a.contains(p) == b.contains(p)
}

/// Are no two of the points the same?
pub open spec fn is_simple(poly: Seq<Vector2<Ideal>>) -> bool {
    forall|i: int, j: int| 0 <= i < j < poly.len() ==> #[trigger] poly[i] != #[trigger] poly[j]
}

/// How far the points lie to the left of the line from `a` to `b`, taken together.
spec fn turns(points: Seq<Vector2<Ideal>>, a: Vector2<Ideal>, b: Vector2<Ideal>) -> real
    decreases points.len(),
{
    if points.len() == 0 {
        0real
    } else {
        turns(points.drop_last(), a, b) + convex::turn(a, b, points.last())
    }
}

/// Together the points lie as far to the left as their sum does.
proof fn lemma_turns(points: Seq<Vector2<Ideal>>, a: Vector2<Ideal>, b: Vector2<Ideal>)
    requires
        loops::has_points(points),
    ensures
        loops::is_point(winding::total(points)),
        turns(points, a, b) == (b.x.v - a.x.v) * (winding::total(points).y.v - (points.len() as real)
            * a.y.v) - (winding::total(points).x.v - (points.len() as real) * a.x.v) * (b.y.v
            - a.y.v),
    decreases points.len(),
{
    let (ex, ey) = (b.x.v - a.x.v, b.y.v - a.y.v);
    let n = points.len() as real;
    if points.len() == 0 {
        let (x, y) = (a.x.v, a.y.v);
        assert(0real * x == 0real && 0real * y == 0real && ex * 0real == 0real && 0real * ey
            == 0real) by (nonlinear_arith);
    } else {
        let rest = points.drop_last();
        let p = points[points.len() - 1];
        assert forall|i: int| 0 <= i < rest.len() implies loops::is_point(#[trigger] rest[i]) by {
            assert(rest[i] == points[i]);
        }
        assert(loops::is_point(p));
        lemma_turns(rest, a, b);
        let t = winding::total(rest);
        let m = rest.len() as real;
        assert(n == m + 1real);
        ideal::lemma_dist(a.x.v, m, 1real);
        ideal::lemma_dist(a.y.v, m, 1real);
        assert(a.x.v * 1real == a.x.v && a.y.v * 1real == a.y.v) by (nonlinear_arith);
        ideal::lemma_dist(ex, t.y.v - m * a.y.v, p.y.v - a.y.v);
        ideal::lemma_dist(ey, t.x.v - m * a.x.v, p.x.v - a.x.v);
    }
}

proof fn lemma_turns_at_least(
    points: Seq<Vector2<Ideal>>,
    a: Vector2<Ideal>,
    b: Vector2<Ideal>,
    k: int,
)
    requires
        forall|i: int| 0 <= i < points.len() ==> convex::turn(a, b, #[trigger] points[i]) >= 0real,
    ensures
        turns(points, a, b) >= 0real,
        0 <= k < points.len() ==> turns(points, a, b) >= convex::turn(a, b, points[k]),
    decreases points.len(),
{
    if points.len() > 0 {
        let rest = points.drop_last();
        assert forall|i: int| 0 <= i < rest.len() implies convex::turn(a, b, #[trigger] rest[i])
            >= 0real by {
            assert(rest[i] == points[i]);
        }
        lemma_turns_at_least(rest, a, b, k);
        assert(convex::turn(a, b, points[points.len() - 1]) >= 0real);
    }
}

/// The mean of points lies to the left of a line wherever none of them lies to its right, and one
/// to its left.
proof fn lemma_middle_left(
    points: Seq<Vector2<Ideal>>,
    a: Vector2<Ideal>,
    b: Vector2<Ideal>,
    k: int,
)
    requires
        loops::has_points(points),
        forall|i: int| 0 <= i < points.len() ==> convex::turn(a, b, #[trigger] points[i]) >= 0real,
        0 <= k < points.len(),
        convex::turn(a, b, points[k]) > 0real,
    ensures
        loops::is_point(winding::middle(points)),
        convex::turn(a, b, winding::middle(points)) > 0real,
{
    lemma_turns(points, a, b);
    lemma_turns_at_least(points, a, b, k);
    let n = points.len() as real;
    let (t, c) = (winding::total(points), winding::middle(points));
    assert(Ideal::of_count(points.len()).v == n && n > 0real);
    lemma_over(t.x.v, n);
    lemma_over(t.y.v, n);
    assert(t.x.v == n * c.x.v && t.y.v == n * c.y.v);
    let (ex, ey) = (b.x.v - a.x.v, b.y.v - a.y.v);
    ideal::lemma_dist(n, c.x.v, a.x.v);
    ideal::lemma_dist(n, c.y.v, a.y.v);
    ideal::lemma_assoc(n, ex, c.y.v - a.y.v);
    ideal::lemma_assoc(n, c.x.v - a.x.v, ey);
    let (u, v) = (ex * (c.y.v - a.y.v), (c.x.v - a.x.v) * ey);
    ideal::lemma_dist(n, u, v);
    let d = u - v;
    assert(n * d > 0real);
    assert(d > 0real) by (nonlinear_arith)
        requires
            n * d > 0real,
            n > 0real,
    ;
}

proof fn lemma_over(x: real, n: real)
    requires
        n > 0real,
    ensures
        x == n * (x / n),
{
    assert(x == n * (x / n)) by (nonlinear_arith)
        requires
            n > 0real,
    ;
}

/// The mean of the points of a convex loop lies inside it.
proof fn lemma_middle_inside(points: Seq<Vector2<Ideal>>, poly: Seq<Vector2<Ideal>>, i: int)
    requires
        convex::is_convex(poly),
        poly.len() >= 3,
        same_points(points, poly),
        0 <= i < poly.len(),
    ensures
        loops::has_points(points),
        loops::is_point(winding::middle(points)),
        convex::turn(poly[i], poly[(i + 1) % poly.len() as int], winding::middle(points)) > 0real,
{
    let n = poly.len() as int;
    let j = (i + 1) % n;
    polygon::lemma_next(i, n);
    let third: int = if i != 0 && j != 0 {
        0
    } else if i != 1 && j != 1 {
        1
    } else {
        2
    };
    assert(poly.contains(poly[third]));
    assert(points.contains(poly[third]));
    let k = choose|k: int| 0 <= k < points.len() && points[k] == poly[third];
    convex::lemma_left(poly, i, third);
    assert forall|m: int| 0 <= m < points.len() implies loops::is_point(#[trigger] points[m])
        && convex::turn(poly[i], poly[j], points[m]) >= 0real by {
        assert(points.contains(points[m]));
        assert(poly.contains(points[m]));
        let l = choose|l: int| 0 <= l < poly.len() && poly[l] == points[m];
        assert(loops::is_point(poly[l]));
        convex::lemma_left(poly, i, l);
    }
    lemma_middle_left(points, poly[i], poly[j], k);
}

/// What `p` and `q` span, seen from `c`.
pub open spec fn span(c: Vector2<Ideal>, p: Vector2<Ideal>, q: Vector2<Ideal>) -> real {
    (p.x.v - c.x.v) * (q.y.v - c.y.v) - (q.x.v - c.x.v) * (p.y.v - c.y.v)
}

/// The angle at which `p` is seen from `c`.
pub open spec fn seen(c: Vector2<Ideal>) -> spec_fn(Vector2<Ideal>) -> real {
    |p: Vector2<Ideal>| winding::bearing(p, c).v
}

/// Is the edge from `p` to `q` the one on which the angles seen from `c` start anew?
pub open spec fn starts_anew(c: Vector2<Ideal>, p: Vector2<Ideal>, q: Vector2<Ideal>) -> bool {
    p.y.v >= c.y.v && q.y.v < c.y.v
}

/// Along an edge that turns to the left about `c` the angles rise, unless they start anew.
proof fn lemma_rises(c: Vector2<Ideal>, p: Vector2<Ideal>, q: Vector2<Ideal>)
    requires
        loops::is_point(c),
        loops::is_point(p),
        loops::is_point(q),
        span(c, p, q) > 0real,
    ensures
        starts_anew(c, p, q) || seen(c)(p) < seen(c)(q),
        starts_anew(c, p, q) ==> seen(c)(q) < seen(c)(p),
{
    let (px, py) = (p.x.v - c.x.v, p.y.v - c.y.v);
    let (qx, qy) = (q.x.v - c.x.v, q.y.v - c.y.v);
    assert(px != 0real || py != 0real) by {
        if px == 0real && py == 0real {
            assert(0real * qy - qx * 0real == 0real) by (nonlinear_arith);
        }
    }
    assert(qx != 0real || qy != 0real) by {
        if qx == 0real && qy == 0real {
            assert(px * 0real - 0real * py == 0real) by (nonlinear_arith);
        }
    }
    ideal::lemma_headings(py, px, qy, qx);
    ideal::lemma_headings(qy, qx, py, px);
    assert(p.minus(c).y.v == py && p.minus(c).x.v == px);
    assert(q.minus(c).y.v == qy && q.minus(c).x.v == qx);
}

/// Of two edges on which the angles start anew, one has an end of the other on its right or on it:
/// the one that is crossed first on the way out from `c`.
proof fn lemma_crossed(
    ax: real,
    ay: real,
    bx: real,
    bz: real,
    px: real,
    py: real,
    qx: real,
    qy: real,
)
    ensures
        ({
            let f = |x: real, y: real| (bx - ax) * (y - ay) - (x - ax) * (bz - ay);
            (-qy) * f(px, py) + py * f(qx, qy) == (ax * bz - bx * ay) * (py - qy) - (px * qy - qx
                * py) * (ay - bz)
        }),
{
    let (ci, di, e) = (ax * bz - bx * ay, ay - bz, bx - ax);
    lemma_line(ax, ay, bx, bz, px, py);
    lemma_line(ax, ay, bx, bz, qx, qy);
    let (fp, fq) = (ci + px * di + py * e, ci + qx * di + qy * e);
    ideal::lemma_dist(-qy, ci + px * di, py * e);
    ideal::lemma_dist(-qy, ci, px * di);
    ideal::lemma_dist(py, ci + qx * di, qy * e);
    ideal::lemma_dist(py, ci, qx * di);
    ideal::lemma_dist(ci, py, qy);
    ideal::lemma_dist(ci, qy, py);
    ideal::lemma_dist(qy, ci, 0real);
    ideal::lemma_dist(px * di, qy, 0real);
    ideal::lemma_dist(py * e, qy, 0real);
    ideal::lemma_dist(-qy, px * di, py * e);
    ideal::lemma_assoc(px, qy, di);
    ideal::lemma_assoc(qx, py, di);
    ideal::lemma_assoc(e, py, qy);
    ideal::lemma_dist(di, px * qy, qx * py);
    ideal::lemma_dist(ci, -qy, py);
    assert((-qy) * ci == -(qy * ci)) by (nonlinear_arith);
    let g = px * di;
    assert((-qy) * g == -(qy * g)) by (nonlinear_arith);
    let h = py * e;
    assert((-qy) * h == -(qy * h)) by (nonlinear_arith);
}

/// How far a point lies to the left of a line, as a linear function.
proof fn lemma_line(ax: real, ay: real, bx: real, bz: real, x: real, y: real)
    ensures
        (bx - ax) * (y - ay) - (x - ax) * (bz - ay) == (ax * bz - bx * ay) + x * (ay - bz) + y * (bx
            - ax),
{
    ideal::lemma_foil(bx, ax, y, ay);
    ideal::lemma_foil(x, ax, bz, ay);
    ideal::lemma_dist(x, ay, bz);
    ideal::lemma_dist(y, bx, ax);
    ideal::lemma_dist(ax, ay, bz);
}

/// Is `c` strictly to the left of every edge?
pub open spec fn is_inside(poly: Seq<Vector2<Ideal>>, c: Vector2<Ideal>) -> bool {
    &&& loops::is_point(c)
    &&& forall|i: int|
        0 <= i < poly.len() ==> convex::turn(
            #[trigger] poly[i],
            poly[(i + 1) % poly.len() as int],
            c,
        ) > 0real
}

/// Does the edge of the loop from its `i`-th vertex on start the angles anew?
spec fn starts_at(poly: Seq<Vector2<Ideal>>, c: Vector2<Ideal>, i: int) -> bool {
    starts_anew(c, poly[i], poly[(i + 1) % poly.len() as int])
}

/// How far out an edge on which the angles start anew is crossed, as a fraction.
spec fn crossing(poly: Seq<Vector2<Ideal>>, c: Vector2<Ideal>, i: int) -> (real, real) {
    let (p, q) = (poly[i], poly[(i + 1) % poly.len() as int]);
    (span(c, p, q), (p.y.v - c.y.v) - (q.y.v - c.y.v))
}

proof fn lemma_not_further(poly: Seq<Vector2<Ideal>>, c: Vector2<Ideal>, i: int, j: int)
    requires
        convex::is_convex(poly),
        poly.len() >= 3,
        is_inside(poly, c),
        0 <= i < poly.len(),
        0 <= j < poly.len(),
        starts_at(poly, c, i),
        starts_at(poly, c, j),
        crossing(poly, c, i).0 * crossing(poly, c, j).1 <= crossing(poly, c, j).0 * crossing(
            poly,
            c,
            i,
        ).1,
    ensures
        i == j,
{
    let n = poly.len() as int;
    let (i2, j2) = ((i + 1) % n, (j + 1) % n);
    polygon::lemma_next(i, n);
    polygon::lemma_next(j, n);
    let (x, y) = (c.x.v, c.y.v);
    let (ax, ay) = (poly[i].x.v - x, poly[i].y.v - y);
    let (bx, bz) = (poly[i2].x.v - x, poly[i2].y.v - y);
    let (px, py) = (poly[j].x.v - x, poly[j].y.v - y);
    let (qx, qy) = (poly[j2].x.v - x, poly[j2].y.v - y);
    lemma_crossed(ax, ay, bx, bz, px, py, qx, qy);
    convex::lemma_left(poly, i, j);
    convex::lemma_left(poly, i, j2);
    let fp = convex::turn(poly[i], poly[i2], poly[j]);
    let fq = convex::turn(poly[i], poly[i2], poly[j2]);
    assert(bx - ax == poly[i2].x.v - poly[i].x.v && bz - ay == poly[i2].y.v - poly[i].y.v);
    assert(px - ax == poly[j].x.v - poly[i].x.v && py - ay == poly[j].y.v - poly[i].y.v);
    assert(qx - ax == poly[j2].x.v - poly[i].x.v && qy - ay == poly[j2].y.v - poly[i].y.v);
    assert(fp == (bx - ax) * (py - ay) - (px - ax) * (bz - ay));
    assert(fq == (bx - ax) * (qy - ay) - (qx - ax) * (bz - ay));
    let t = -qy;
    if j != i && j != i2 {
        assert(t * fp > 0real) by (nonlinear_arith)
            requires
                t > 0real,
                fp > 0real,
        ;
        assert(py * fq >= 0real) by (nonlinear_arith)
            requires
                py >= 0real,
                fq >= 0real,
        ;
    }
}

/// There is one edge at most on which the angles start anew.
proof fn lemma_one_start(poly: Seq<Vector2<Ideal>>, c: Vector2<Ideal>, i: int, j: int)
    requires
        convex::is_convex(poly),
        poly.len() >= 3,
        is_inside(poly, c),
        0 <= i < poly.len(),
        0 <= j < poly.len(),
        starts_at(poly, c, i),
        starts_at(poly, c, j),
    ensures
        i == j,
{
    if crossing(poly, c, i).0 * crossing(poly, c, j).1 <= crossing(poly, c, j).0 * crossing(
        poly,
        c,
        i,
    ).1 {
        lemma_not_further(poly, c, i, j);
    } else {
        lemma_not_further(poly, c, j, i);
    }
}

/// Does `key` rise strictly along the points?
pub open spec fn is_rising(
    points: Seq<Vector2<Ideal>>,
    key: spec_fn(Vector2<Ideal>) -> real,
) -> bool {
    forall|i: int, j: int|
        0 <= i < j < points.len() ==> key(#[trigger] points[i]) < key(#[trigger] points[j])
}

#[verifier::rlimit(60)]
proof fn lemma_rising(points: Seq<Vector2<Ideal>>, key: spec_fn(Vector2<Ideal>) -> real)
    requires
        forall|i: int|
            0 <= i < points.len() - 1 ==> key(#[trigger] points[i]) < key(points[i + 1]),
    ensures
        is_rising(points, key),
    decreases points.len(),
{
    if points.len() > 0 {
        let rest = points.drop_last();
        assert forall|i: int| 0 <= i < rest.len() - 1 implies key(#[trigger] rest[i]) < key(
            rest[i + 1],
        ) by {
            assert(rest[i] == points[i] && rest[i + 1] == points[i + 1]);
        }
        lemma_rising(rest, key);
        assert forall|i: int, j: int| 0 <= i < j < points.len() implies key(#[trigger] points[i])
            < key(#[trigger] points[j]) by {
            assert(points[i] == rest[i]);
            if j < rest.len() {
                assert(points[j] == rest[j]);
            } else {
                let l = j - 1;
                assert(key(points[l]) < key(points[l + 1]));
                if i < l {
                    assert(key(rest[i]) < key(rest[l]));
                }
            }
        }
    }
}

/// Along an edge of a loop about `c` the angles rise, unless they start anew.
proof fn lemma_edge_rises(poly: Seq<Vector2<Ideal>>, c: Vector2<Ideal>, i: int)
    requires
        loops::has_points(poly),
        is_inside(poly, c),
        0 <= i < poly.len(),
    ensures
        starts_at(poly, c, i) || seen(c)(poly[i]) < seen(c)(poly[(i + 1) % poly.len() as int]),
{
    let n = poly.len() as int;
    let j = (i + 1) % n;
    polygon::lemma_next(i, n);
    assert(loops::is_point(poly[i]) && loops::is_point(poly[j]));
    convex::lemma_turn(poly[i], poly[j], c);
    assert(convex::turn(c, poly[i], poly[j]) == span(c, poly[i], poly[j]));
    lemma_rises(c, poly[i], poly[j]);
}

/// On some edge of a convex loop the angles start anew.
proof fn lemma_some_start(poly: Seq<Vector2<Ideal>>, c: Vector2<Ideal>) -> (w: int)
    requires
        loops::has_points(poly),
        poly.len() >= 3,
        is_inside(poly, c),
    ensures
        0 <= w < poly.len(),
        starts_at(poly, c, w),
{
    let n = poly.len() as int;
    let key = seen(c);
    if forall|i: int| 0 <= i < n ==> !#[trigger] starts_at(poly, c, i) {
        assert forall|i: int| 0 <= i < n - 1 implies key(#[trigger] poly[i]) < key(poly[i + 1]) by {
            lemma_edge_rises(poly, c, i);
            polygon::lemma_next(i, n);
            assert(!starts_at(poly, c, i));
        }
        lemma_rising(poly, key);
        assert(key(poly[0]) < key(poly[n - 1]));
        lemma_edge_rises(poly, c, n - 1);
        polygon::lemma_next(n - 1, n);
        assert(!starts_at(poly, c, n - 1));
        assert(false);
    }
    choose|w: int| 0 <= w < n && #[trigger] starts_at(poly, c, w)
}

/// From one vertex of a loop to the next, counted from the `k`-th on.
proof fn lemma_rotated_next(poly: Seq<Vector2<Ideal>>, k: int, i: int) -> (m: int)
    requires
        0 <= k < poly.len(),
        0 <= i < poly.len() - 1,
    ensures
        0 <= m < poly.len(),
        m == k + i || m == k + i - poly.len(),
        loops::rotated(poly, k)[i] == poly[m],
        loops::rotated(poly, k)[i + 1] == poly[(m + 1) % poly.len() as int],
{
    let n = poly.len() as int;
    let m = if k + i < n {
        k + i
    } else {
        k + i - n
    };
    polygon::lemma_next(m, n);
    m
}

/// Some vertex of a convex loop has the angles rise all around from it.
proof fn lemma_start(poly: Seq<Vector2<Ideal>>, c: Vector2<Ideal>) -> (k: int)
    requires
        convex::is_convex(poly),
        poly.len() >= 3,
        is_inside(poly, c),
    ensures
        0 <= k < poly.len(),
        is_rising(loops::rotated(poly, k), seen(c)),
{
    let n = poly.len() as int;
    let key = seen(c);
    let w = lemma_some_start(poly, c);
    let k = if w + 1 == n {
        0
    } else {
        w + 1
    };
    let r = loops::rotated(poly, k);
    assert(r.len() == n);
    assert forall|i: int| 0 <= i < n - 1 implies key(#[trigger] r[i]) < key(r[i + 1]) by {
        let m = lemma_rotated_next(poly, k, i);
        lemma_edge_rises(poly, c, m);
        if starts_at(poly, c, m) {
            lemma_one_start(poly, c, m, w);
        }
    }
    lemma_rising(r, key);
    k
}

/// Of two points that something rises along alike there is one order only.
proof fn lemma_one_order(
    a: Seq<Vector2<Ideal>>,
    b: Seq<Vector2<Ideal>>,
    key: spec_fn(Vector2<Ideal>) -> real,
)
    requires
        is_rising(a, key),
        is_rising(b, key),
        same_points(a, b),
    ensures
        a == b,
    decreases a.len(),
{
    if a.len() == 0 {
        if b.len() > 0 {
            assert(b.contains(b[0]));
            assert(a.contains(b[0]));
        }
        assert(a =~= b);
    } else {
        assert(a.contains(a[0]));
        assert(b.contains(a[0]));
        let (m, n) = (a.len() - 1, b.len() - 1);
        let (p, q) = (a[m], b[n]);
        assert(a.contains(p) && b.contains(q));
        assert(b.contains(p) && a.contains(q));
        let i = choose|i: int| 0 <= i < b.len() && b[i] == p;
        let j = choose|j: int| 0 <= j < a.len() && a[j] == q;
        if i < n {
            assert(key(b[i]) < key(b[n]));
        }
        if j < m {
            assert(key(a[j]) < key(a[m]));
        }
        assert(p == q);
        let (c, d) = (a.drop_last(), b.drop_last());
        assert(is_rising(c, key)) by {
            assert forall|x: int, y: int| 0 <= x < y < c.len() implies key(#[trigger] c[x]) < key(
                #[trigger] c[y],
            ) by {
                assert(c[x] == a[x] && c[y] == a[y]);
            }
        }
        assert(is_rising(d, key)) by {
            assert forall|x: int, y: int| 0 <= x < y < d.len() implies key(#[trigger] d[x]) < key(
                #[trigger] d[y],
            ) by {
                assert(d[x] == b[x] && d[y] == b[y]);
            }
        }
        assert forall|v: Vector2<Ideal>| #[trigger] c.contains(v) == d.contains(v) by {
            if c.contains(v) {
                let x = choose|x: int| 0 <= x < c.len() && c[x] == v;
                assert(a.contains(a[x]));
                assert(a.contains(v) == b.contains(v));
                assert(key(a[x]) < key(a[m]));
                let y = choose|y: int| 0 <= y < b.len() && b[y] == v;
                assert(y != n);
                assert(d[y] == v);
            }
            if d.contains(v) {
                let x = choose|x: int| 0 <= x < d.len() && d[x] == v;
                assert(b.contains(b[x]));
                assert(a.contains(v) == b.contains(v));
                assert(key(b[x]) < key(b[n]));
                let y = choose|y: int| 0 <= y < a.len() && a[y] == v;
                assert(y != m);
                assert(c[y] == v);
            }
        }
        lemma_one_order(c, d, key);
        assert(a =~= c.push(p));
        assert(b =~= d.push(q));
    }
}

/// Without repeats, points along which something does not fall have it rise.
proof fn lemma_unrepeated(points: Seq<Vector2<Ideal>>, key: spec_fn(Vector2<Ideal>) -> real)
    requires
        points.len() > 0,
        forall|i: int, j: int|
            0 <= i <= j < points.len() ==> key(#[trigger] points[i]) <= key(#[trigger] points[j]),
        forall|i: int, j: int|
            0 <= i < points.len() && 0 <= j < points.len() && key(#[trigger] points[i]) == key(
                #[trigger] points[j],
            ) ==> points[i] == points[j],
    ensures
        loops::without_repeats(points).len() > 0,
        loops::without_repeats(points).last() == points.last(),
        is_rising(loops::without_repeats(points), key),
        same_points(loops::without_repeats(points), points),
    decreases points.len(),
{
    if points.len() > 1 {
        let rest = points.drop_last();
        let n = points.len() - 1;
        let p = points[n];
        assert forall|i: int, j: int| 0 <= i <= j < rest.len() implies key(#[trigger] rest[i])
            <= key(#[trigger] rest[j]) by {
            assert(rest[i] == points[i] && rest[j] == points[j]);
        }
        assert forall|i: int, j: int|
            0 <= i < rest.len() && 0 <= j < rest.len() && key(#[trigger] rest[i]) == key(
                #[trigger] rest[j],
            ) implies rest[i] == rest[j] by {
            assert(rest[i] == points[i] && rest[j] == points[j]);
        }
        lemma_unrepeated(rest, key);
        let kept = loops::without_repeats(rest);
        let all = loops::without_repeats(points);
        let m = kept.len() - 1;
        assert(kept[m] == points[n - 1]);
        assert(key(points[n - 1]) <= key(points[n]));
        assert(is_rising(all, key)) by {
            assert forall|i: int, j: int| 0 <= i < j < all.len() implies key(#[trigger] all[i])
                < key(#[trigger] all[j]) by {
                assert(all[i] == kept[i]);
                if j < kept.len() {
                    assert(all[j] == kept[j]);
                } else {
                    assert(all[j] == p);
                    if i < m {
                        assert(key(kept[i]) < key(kept[m]));
                    }
                }
            }
        }
        assert forall|v: Vector2<Ideal>| #[trigger] all.contains(v) == points.contains(v) by {
            assert(kept.contains(v) == rest.contains(v));
            if all.contains(v) {
                let x = choose|x: int| 0 <= x < all.len() && all[x] == v;
                if x < kept.len() {
                    assert(kept[x] == v);
                    let y = choose|y: int| 0 <= y < rest.len() && rest[y] == v;
                    assert(points[y] == v);
                } else {
                    assert(points[n] == v);
                }
            }
            if points.contains(v) {
                let x = choose|x: int| 0 <= x < points.len() && points[x] == v;
                if x < n {
                    assert(rest[x] == v);
                    let y = choose|y: int| 0 <= y < kept.len() && kept[y] == v;
                    assert(all[y] == v);
                } else if p == kept.last() {
                    assert(all[m] == v);
                } else {
                    assert(all[kept.len() as int] == v);
                }
            }
        }
    } else {
        assert(loops::without_repeats(points) == points);
    }
}

/// Two points on either side of `c` are not seen at one angle.
proof fn lemma_opposite(ex: real, ey: real, ux: real, uy: real, vx: real, vy: real)
    requires
        ex * ux + ey * uy < 0real,
        ex * vx + ey * vy > 0real,
    ensures
        ideal::headings()(uy, ux) != ideal::headings()(vy, vx),
{
    ideal::lemma_dist(ex, 0real, 0real);
    ideal::lemma_dist(ey, 0real, 0real);
    assert(ex * 0real == 0real && ey * 0real == 0real) by (nonlinear_arith);
    assert(ux != 0real || uy != 0real);
    assert(vx != 0real || vy != 0real);
    ideal::lemma_headings(uy, ux, vy, vx);
    ideal::lemma_headings(vy, vx, uy, ux);
    let left = ux * vy - vx * uy;
    ideal::lemma_dist(vx, uy, 0real);
    ideal::lemma_dist(ux, vy, 0real);
    if left == 0real && (uy < 0real) == (vy < 0real) {
        let (a, b) = (ex * ux + ey * uy, ex * vx + ey * vy);
        // a vy == uy b
        ideal::lemma_dist(vy, ex * ux, ey * uy);
        ideal::lemma_dist(uy, ex * vx, ey * vy);
        ideal::lemma_assoc(ex, ux, vy);
        ideal::lemma_assoc(ex, vx, uy);
        ideal::lemma_assoc(ey, uy, vy);
        ideal::lemma_assoc(ey, vy, uy);
        assert(vy * a == uy * b);
        assert(vy == 0real && uy == 0real) by (nonlinear_arith)
            requires
                vy * a == uy * b,
                a < 0real,
                b > 0real,
                (uy < 0real && vy < 0real) || (uy >= 0real && vy >= 0real),
        ;
        assert(ex * ux < 0real && ex * vx > 0real);
        assert((ux > 0real && vx < 0real) || (ux < 0real && vx > 0real)) by (nonlinear_arith)
            requires
                ex * ux < 0real,
                ex * vx > 0real,
        ;
    }
}

/// The mean of two points, each counted at least once, lies between them.
proof fn lemma_two_points(points: Seq<Vector2<Ideal>>, poly: Seq<Vector2<Ideal>>)
    requires
        loops::has_points(poly),
        poly.len() == 2,
        poly[0] != poly[1],
        same_points(points, poly),
    ensures
        seen(winding::middle(points))(poly[0]) != seen(winding::middle(points))(poly[1]),
{
    let (p, q) = (poly[0], poly[1]);
    assert(poly.contains(p) && poly.contains(q));
    assert(points.contains(p) && points.contains(q));
    let i = choose|i: int| 0 <= i < points.len() && points[i] == p;
    let j = choose|j: int| 0 <= j < points.len() && points[j] == q;
    assert(loops::is_point(p) && loops::is_point(q));
    let (ex, ey) = (q.x.v - p.x.v, q.y.v - p.y.v);
    let a = Vector2::<Ideal> { x: ideal::number(p.x.v + ey), y: ideal::number(p.y.v - ex) };
    let b = Vector2::<Ideal> { x: ideal::number(q.x.v - ey), y: ideal::number(q.y.v + ex) };
    let l = ex * ex + ey * ey;
    assert(ex != 0real || ey != 0real);
    assert(l > 0real) by (nonlinear_arith)
        requires
            l == ex * ex + ey * ey,
            ex != 0real || ey != 0real,
    ;
    convex::lemma_no_turn(p, a);
    convex::lemma_no_turn(q, b);
    ideal::lemma_dist(ex, ex, 0real);
    ideal::lemma_dist(ey, ey, 0real);
    assert((-ex) * (-ex) == ex * ex && (-ey) * (-ey) == ey * ey) by (nonlinear_arith);
    assert(ex * (-ex) == -(ex * ex) && (-ey) * ey == -(ey * ey)) by (nonlinear_arith);
    assert(a.x.v - p.x.v == ey && a.y.v - p.y.v == -ex);
    assert(b.x.v - q.x.v == -ey && b.y.v - q.y.v == ex);
    assert(p.x.v - q.x.v == -ex && p.y.v - q.y.v == -ey);
    assert(convex::turn(p, a, q) == ey * ey - ex * (-ex));
    assert(convex::turn(q, b, p) == (-ey) * (-ey) - (-ex) * ex);
    assert((-ex) * ex == -(ex * ex)) by (nonlinear_arith);
    assert forall|m: int| 0 <= m < points.len() implies loops::is_point(#[trigger] points[m])
        && convex::turn(p, a, points[m]) >= 0real && convex::turn(q, b, points[m]) >= 0real by {
        assert(points.contains(points[m]));
        assert(poly.contains(points[m]));
    }
    lemma_middle_left(points, p, a, j);
    lemma_middle_left(points, q, b, i);
    let c = winding::middle(points);
    let (ux, uy) = (p.x.v - c.x.v, p.y.v - c.y.v);
    let (vx, vy) = (q.x.v - c.x.v, q.y.v - c.y.v);
    assert(convex::turn(p, a, c) == ey * (c.y.v - p.y.v) - (c.x.v - p.x.v) * (-ex));
    assert(convex::turn(q, b, c) == (-ey) * (c.y.v - q.y.v) - (c.x.v - q.x.v) * ex);
    lemma_flip(ey, uy, ux, ex);
    lemma_flip(ey, vy, vx, ex);
    assert(c.y.v - p.y.v == -uy && c.x.v - p.x.v == -ux);
    assert(c.y.v - q.y.v == -vy && c.x.v - q.x.v == -vx);
    assert(ex * ux + ey * uy < 0real);
    assert(ex * vx + ey * vy > 0real);
    lemma_opposite(ex, ey, ux, uy, vx, vy);
    assert(p.minus(c).y.v == uy && p.minus(c).x.v == ux);
    assert(q.minus(c).y.v == vy && q.minus(c).x.v == vx);
}

proof fn lemma_flip(a: real, b: real, c: real, d: real)
    ensures
        a * (-b) == -(a * b),
        (-a) * (-b) == a * b,
        (-c) * (-d) == d * c,
        (-c) * d == -(d * c),
{
    assert(a * (-b) == -(a * b)) by (nonlinear_arith);
    assert((-a) * (-b) == a * b) by (nonlinear_arith);
    assert((-c) * (-d) == d * c) by (nonlinear_arith);
    assert((-c) * d == -(d * c)) by (nonlinear_arith);
}

/// Winding keeps the points.
proof fn lemma_wound_points(
    points: Seq<Vector2<Ideal>>,
    poly: Seq<Vector2<Ideal>>,
    c: Vector2<Ideal>,
)
    requires
        loops::has_points(poly),
        same_points(points, poly),
    ensures
        same_points(winding::wound(points, c), poly),
        loops::has_points(winding::wound(points, c)),
{
    broadcast use vstd::seq_lib::group_to_multiset_ensures;

    let w = winding::wound(points, c);
    winding::law_wound_permutes(points, c);
    assert forall|p: Vector2<Ideal>| #[trigger] w.contains(p) == poly.contains(p) by {
        assert(w.contains(p) == (w.to_multiset().count(p) > 0));
        assert(points.contains(p) == (points.to_multiset().count(p) > 0));
        assert(points.contains(p) == poly.contains(p));
    }
    assert forall|i: int| 0 <= i < w.len() implies loops::is_point(#[trigger] w[i]) by {
        assert(w.contains(w[i]));
        let l = choose|l: int| 0 <= l < poly.len() && poly[l] == w[i];
        assert(loops::is_point(poly[l]));
    }
}

/// Going through a loop from another vertex on keeps the points.
pub proof fn lemma_rotated_points(poly: Seq<Vector2<Ideal>>, k: int)
    requires
        0 <= k < poly.len(),
    ensures
        loops::rotated(poly, k).len() == poly.len(),
        same_points(loops::rotated(poly, k), poly),
{
    let n = poly.len() as int;
    let r = loops::rotated(poly, k);
    assert forall|p: Vector2<Ideal>| #[trigger] r.contains(p) == poly.contains(p) by {
        if r.contains(p) {
            let x = choose|x: int| 0 <= x < n && r[x] == p;
            assert(poly[if x < n - k {
                x + k
            } else {
                x - (n - k)
            }] == p);
        }
        if poly.contains(p) {
            let x = choose|x: int| 0 <= x < n && poly[x] == p;
            assert(r[if x >= k {
                x - k
            } else {
                x + (n - k)
            }] == p);
        }
    }
}

/// Some vertex of a convex loop has the angles seen from the mean of its points rise all around.
proof fn lemma_any_start(points: Seq<Vector2<Ideal>>, poly: Seq<Vector2<Ideal>>) -> (k: int)
    requires
        convex::is_convex(poly),
        poly.len() >= 3 || is_simple(poly),
        poly.len() > 0,
        same_points(points, poly),
    ensures
        0 <= k < poly.len(),
        is_rising(loops::rotated(poly, k), seen(winding::middle(points))),
{
    let n = poly.len() as int;
    let c = winding::middle(points);
    let key = seen(c);
    if n >= 3 {
        assert(is_inside(poly, c)) by {
            assert forall|i: int| 0 <= i < poly.len() implies convex::turn(
                #[trigger] poly[i],
                poly[(i + 1) % n],
                c,
            ) > 0real by {
                lemma_middle_inside(points, poly, i);
            }
            lemma_middle_inside(points, poly, 0);
        }
        lemma_start(poly, c)
    } else {
        let k: int = if n == 2 {
            assert(poly[0] != poly[1]);
            lemma_two_points(points, poly);
            if key(poly[0]) < key(poly[1]) {
                0
            } else {
                1
            }
        } else {
            0
        };
        lemma_rising(loops::rotated(poly, k), key);
        k
    }
}

/// Winding the points of a convex loop, in whatever order they came and however often, finds that
/// loop again: from some vertex of it on, each point as often as it came.
pub proof fn law_convex_loop_is_found(
    points: Seq<Vector2<Ideal>>,
    poly: Seq<Vector2<Ideal>>,
) -> (k: int)
    requires
        convex::is_convex(poly),
        poly.len() >= 3 || is_simple(poly),
        poly.len() > 0,
        same_points(points, poly),
    ensures
        0 <= k < poly.len(),
        loops::has_points(winding::wound(points, winding::middle(points))),
        same_points(winding::wound(points, winding::middle(points)), poly),
        loops::without_repeats(winding::wound(points, winding::middle(points))) == loops::rotated(
            poly,
            k,
        ),
{
    let c = winding::middle(points);
    let w = winding::wound(points, c);
    let key = seen(c);
    lemma_wound_points(points, poly, c);
    winding::law_wound_permutes(points, c);
    let k = lemma_any_start(points, poly);
    let r = loops::rotated(poly, k);
    lemma_rotated_points(poly, k);
    assert(poly.contains(poly[0]));
    assert(w.contains(poly[0]));
    assert forall|i: int, j: int| 0 <= i <= j < w.len() implies key(#[trigger] w[i]) <= key(
        #[trigger] w[j],
    ) by {
        winding::law_wound_rises(points, c, i, j);
    }
    assert forall|i: int, j: int|
        0 <= i < w.len() && 0 <= j < w.len() && key(#[trigger] w[i]) == key(
            #[trigger] w[j],
        ) implies w[i] == w[j] by {
        assert(w.contains(w[i]) && w.contains(w[j]));
        assert(r.contains(w[i]) && r.contains(w[j]));
        let x = choose|x: int| 0 <= x < r.len() && r[x] == w[i];
        let y = choose|y: int| 0 <= y < r.len() && r[y] == w[j];
        if x < y {
            assert(key(r[x]) < key(r[y]));
        } else if y < x {
            assert(key(r[y]) < key(r[x]));
        }
    }
    lemma_unrepeated(w, key);
    let d = loops::without_repeats(w);
    assert forall|p: Vector2<Ideal>| #[trigger] d.contains(p) == r.contains(p) by {
        assert(w.contains(p) == poly.contains(p));
    }
    lemma_one_order(d, r, key);
    k
}

/// Are no two of the points too close to tell apart, unless they are the same?
pub open spec fn is_apart(poly: Seq<Vector2<Ideal>>) -> bool {
    forall|p: Vector2<Ideal>, q: Vector2<Ideal>|
        poly.contains(p) && poly.contains(q) && #[trigger] winding::coincide(p, q) ==> p == q
}

/// Of points that are apart, dropping those that coincide drops repeats.
pub proof fn lemma_distinct_is_unrepeated(points: Seq<Vector2<Ideal>>)
    requires
        loops::has_points(points),
        is_apart(points),
    ensures
        winding::distinct(points) == loops::without_repeats(points),
        points.len() > 0 ==> winding::distinct(points).len() > 0 && points.contains(
            winding::distinct(points).last(),
        ),
    decreases points.len(),
{
    if points.len() > 0 {
        let rest = points.drop_last();
        let p = points[points.len() - 1];
        assert(loops::is_point(p));
        assert forall|i: int| 0 <= i < rest.len() implies loops::is_point(#[trigger] rest[i]) by {
            assert(rest[i] == points[i]);
        }
        assert forall|v: Vector2<Ideal>| rest.contains(v) implies points.contains(v) by {
            let x = choose|x: int| 0 <= x < rest.len() && rest[x] == v;
            assert(points[x] == v);
        }
        assert forall|v: Vector2<Ideal>, q: Vector2<Ideal>|
            rest.contains(v) && rest.contains(q) && #[trigger] winding::coincide(v, q) implies v
            == q by {
            assert(points.contains(v) && points.contains(q));
        }
        lemma_distinct_is_unrepeated(rest);
        assert(points.contains(p));
        let kept = winding::distinct(rest);
        if kept.len() > 0 {
            let q = kept.last();
            assert(rest.len() > 0);
            assert(points.contains(q));
            if p == q {
                assert(0real * 0real == 0real) by (nonlinear_arith);
                assert(p.minus(p).x.v == 0real && p.minus(p).y.v == 0real);
                assert(winding::coincide(p, q));
            }
        } else {
            assert(rest.len() == 0);
            assert(winding::distinct(points) =~= points);
        }
    } else {
        assert(winding::distinct(points) =~= loops::without_repeats(points));
    }
}

/// Two points cannot be told apart just if their squared distance is next to nothing.
pub proof fn law_when_points_coincide(p: Vector2<Ideal>, q: Vector2<Ideal>)
    requires
        loops::is_point(p),
        loops::is_point(q),
    ensures
        ({
            let (x, y) = (p.x.v - q.x.v, p.y.v - q.y.v);
            winding::coincide(p, q) == (x * x + y * y < 1real / 4_503_599_627_370_496real)
        }),
{
}

/// The mean of points: so many times as far as it, they reach together.
pub proof fn law_mean_balances(points: Seq<Vector2<Ideal>>)
    requires
        loops::has_points(points),
        points.len() > 0,
    ensures
        ({
            let (c, n) = (winding::middle(points), points.len() as real);
            &&& loops::is_point(c)
            &&& n * c.x.v == series::sum(|i: int| points[i].x.v, points.len())
            &&& n * c.y.v == series::sum(|i: int| points[i].y.v, points.len())
        }),
{
    lemma_total(points);
    let n = points.len() as real;
    assert(Ideal::of_count(points.len()).v == n && n > 0real);
    lemma_over(winding::total(points).x.v, n);
    lemma_over(winding::total(points).y.v, n);
}

proof fn lemma_total(points: Seq<Vector2<Ideal>>)
    requires
        loops::has_points(points),
    ensures
        loops::is_point(winding::total(points)),
        winding::total(points).x.v == series::sum(|i: int| points[i].x.v, points.len()),
        winding::total(points).y.v == series::sum(|i: int| points[i].y.v, points.len()),
    decreases points.len(),
{
    if points.len() > 0 {
        let (n, rest) = ((points.len() - 1) as nat, points.drop_last());
        assert forall|i: int| 0 <= i < rest.len() implies loops::is_point(#[trigger] rest[i]) by {
            assert(rest[i] == points[i]);
        }
        assert(loops::is_point(points[points.len() - 1]));
        lemma_total(rest);
        series::lemma_same(|i: int| rest[i].x.v, |i: int| points[i].x.v, n);
        series::lemma_same(|i: int| rest[i].y.v, |i: int| points[i].y.v, n);
    }
}

} // verus!
