//! What going through a loop otherwise, or moving it, does to the integrals over it, but for
//! rounding.
use vstd::prelude::*;

use crate::ideal;
use crate::ideal::Ideal;
use crate::polygon;
use crate::profile::ExtrudedProfile;
use crate::scalar::Scalar;
use crate::series;
use crate::vector::{Vector, Vector2};

verus! {

/// Is `p` a point of the plane, with real coordinates?
pub open spec fn is_point(p: Vector2<Ideal>) -> bool {
    p.x.side == 0 && p.y.side == 0
}

/// Is the loop one of points?
pub open spec fn has_points(poly: Seq<Vector2<Ideal>>) -> bool {
    forall|i: int| 0 <= i < poly.len() ==> is_point(#[trigger] poly[i])
}

/// `poly`, gone through from its `k`-th vertex on.
pub open spec fn rotated(poly: Seq<Vector2<Ideal>>, k: int) -> Seq<Vector2<Ideal>> {
    poly.skip(k) + poly.take(k)
}

/// What is summed up over the edges of a loop.
pub open spec fn edge_values(
    poly: Seq<Vector2<Ideal>>,
    term: spec_fn(Vector2<Ideal>, Vector2<Ideal>) -> Ideal,
) -> spec_fn(int) -> real {
    |i: int| term(poly[i], poly[(i + 1) % poly.len() as int]).v
}

/// Is the term of every edge between points a number, and that of the edge gone through backwards
/// its negation?
pub open spec fn is_directed(
    term: spec_fn(Vector2<Ideal>, Vector2<Ideal>) -> Ideal,
) -> bool {
    forall|p: Vector2<Ideal>, q: Vector2<Ideal>|
        is_point(p) && is_point(q) ==> (#[trigger] term(p, q)).side == 0 && term(q, p).v == -term(
            p,
            q,
        ).v
}

/// The sum over the edges of a loop, as a series.
pub proof fn lemma_loop_sum(
    poly: Seq<Vector2<Ideal>>,
    term: spec_fn(Vector2<Ideal>, Vector2<Ideal>) -> Ideal,
)
    requires
        has_points(poly),
        is_directed(term),
    ensures
        polygon::loop_sum(poly, term) == ideal::number(series::sum(edge_values(poly, term), poly.len())),
{
    lemma_edge_sum(poly, term, poly.len());
}

proof fn lemma_edge_sum(
    poly: Seq<Vector2<Ideal>>,
    term: spec_fn(Vector2<Ideal>, Vector2<Ideal>) -> Ideal,
    n: nat,
)
    requires
        has_points(poly),
        is_directed(term),
        n <= poly.len(),
    ensures
        polygon::edge_sum(poly, term, n) == ideal::number(series::sum(edge_values(poly, term), n)),
    decreases n,
{
    if n > 0 {
        let i = n - 1;
        lemma_edge_sum(poly, term, i as nat);
        polygon::lemma_next(i, poly.len() as int);
        let (p, q) = (poly[i], poly[(i + 1) % poly.len() as int]);
        assert(is_point(p) && is_point(q));
        assert(term(p, q).side == 0);
    }
}

/// The negation of a product, factor by factor.
proof fn lemma_negated(w: real, x: real)
    by (nonlinear_arith)
    ensures
        w * (-x) == -(w * x),
{
}

proof fn lemma_x_directed(p: Vector2<Ideal>, q: Vector2<Ideal>)
    requires
        is_point(p),
        is_point(q),
    ensures
        polygon::x_term()(p, q).side == 0,
        polygon::x_term()(q, p).v == -polygon::x_term()(p, q).v,
{
    let (a, b, c, d) = (p.x.v, p.y.v, q.x.v, q.y.v);
    let o = p.outer(q).v;
    let w = a + c;
    let back = c + a;
    assert(q.outer(p).v == -o);
    assert(polygon::x_term()(p, q).v == w * o);
    assert(polygon::x_term()(q, p).v == back * (-o));
    assert(back == w) by (nonlinear_arith)
        requires
            w == a + c,
            back == c + a,
    ;
    lemma_negated(w, o);
}

proof fn lemma_y_directed(p: Vector2<Ideal>, q: Vector2<Ideal>)
    requires
        is_point(p),
        is_point(q),
    ensures
        polygon::y_term()(p, q).side == 0,
        polygon::y_term()(q, p).v == -polygon::y_term()(p, q).v,
{
    let (a, b, c, d) = (p.x.v, p.y.v, q.x.v, q.y.v);
    let o = p.outer(q).v;
    let w = b + d;
    let back = d + b;
    assert(q.outer(p).v == -o);
    assert(polygon::y_term()(p, q).v == w * o);
    assert(polygon::y_term()(q, p).v == back * (-o));
    assert(back == w) by (nonlinear_arith)
        requires
            w == b + d,
            back == d + b,
    ;
    lemma_negated(w, o);
}

proof fn lemma_xx_directed(p: Vector2<Ideal>, q: Vector2<Ideal>)
    requires
        is_point(p),
        is_point(q),
    ensures
        polygon::xx_term()(p, q).side == 0,
        polygon::xx_term()(q, p).v == -polygon::xx_term()(p, q).v,
{
    let (a, b, c, d) = (p.x.v, p.y.v, q.x.v, q.y.v);
    let o = p.outer(q).v;
    let w = a * a + a * c + c * c;
    let back = c * c + c * a + a * a;
    assert(q.outer(p).v == -o);
    assert(polygon::xx_term()(p, q).v == w * o);
    assert(polygon::xx_term()(q, p).v == back * (-o));
    assert(back == w) by (nonlinear_arith)
        requires
            w == a * a + a * c + c * c,
            back == c * c + c * a + a * a,
    ;
    lemma_negated(w, o);
}

proof fn lemma_yy_directed(p: Vector2<Ideal>, q: Vector2<Ideal>)
    requires
        is_point(p),
        is_point(q),
    ensures
        polygon::yy_term()(p, q).side == 0,
        polygon::yy_term()(q, p).v == -polygon::yy_term()(p, q).v,
{
    let (a, b, c, d) = (p.x.v, p.y.v, q.x.v, q.y.v);
    let o = p.outer(q).v;
    let w = b * b + b * d + d * d;
    let back = d * d + d * b + b * b;
    assert(q.outer(p).v == -o);
    assert(polygon::yy_term()(p, q).v == w * o);
    assert(polygon::yy_term()(q, p).v == back * (-o));
    assert(back == w) by (nonlinear_arith)
        requires
            w == b * b + b * d + d * d,
            back == d * d + d * b + b * b,
    ;
    lemma_negated(w, o);
}

proof fn lemma_xy_directed(p: Vector2<Ideal>, q: Vector2<Ideal>)
    requires
        is_point(p),
        is_point(q),
    ensures
        polygon::xy_term()(p, q).side == 0,
        polygon::xy_term()(q, p).v == -polygon::xy_term()(p, q).v,
{
    let (a, b, c, d) = (p.x.v, p.y.v, q.x.v, q.y.v);
    let o = p.outer(q).v;
    let w = a * d + 2real * a * b + 2real * c * d + c * b;
    let back = c * b + 2real * c * d + 2real * a * b + a * d;
    assert(q.outer(p).v == -o);
    assert(polygon::xy_term()(p, q).v == w * o);
    assert(polygon::xy_term()(q, p).v == back * (-o));
    assert(back == w) by (nonlinear_arith)
        requires
            w == a * d + 2real * a * b + 2real * c * d + c * b,
            back == c * b + 2real * c * d + 2real * a * b + a * d,
    ;
    lemma_negated(w, o);
}

/// The terms by which a section is measured all change their sign with the direction of the edge.
pub proof fn lemma_terms()
    ensures
        is_directed(polygon::area_term()),
        is_directed(polygon::x_term()),
        is_directed(polygon::y_term()),
        is_directed(polygon::xx_term()),
        is_directed(polygon::yy_term()),
        is_directed(polygon::xy_term()),
{
    assert forall|p: Vector2<Ideal>, q: Vector2<Ideal>| is_point(p) && is_point(q) implies (
    #[trigger] polygon::x_term()(p, q)).side == 0 && polygon::x_term()(q, p).v
        == -polygon::x_term()(p, q).v by {
        lemma_x_directed(p, q);
    }
    assert forall|p: Vector2<Ideal>, q: Vector2<Ideal>| is_point(p) && is_point(q) implies (
    #[trigger] polygon::y_term()(p, q)).side == 0 && polygon::y_term()(q, p).v
        == -polygon::y_term()(p, q).v by {
        lemma_y_directed(p, q);
    }
    assert forall|p: Vector2<Ideal>, q: Vector2<Ideal>| is_point(p) && is_point(q) implies (
    #[trigger] polygon::xx_term()(p, q)).side == 0 && polygon::xx_term()(q, p).v
        == -polygon::xx_term()(p, q).v by {
        lemma_xx_directed(p, q);
    }
    assert forall|p: Vector2<Ideal>, q: Vector2<Ideal>| is_point(p) && is_point(q) implies (
    #[trigger] polygon::yy_term()(p, q)).side == 0 && polygon::yy_term()(q, p).v
        == -polygon::yy_term()(p, q).v by {
        lemma_yy_directed(p, q);
    }
    assert forall|p: Vector2<Ideal>, q: Vector2<Ideal>| is_point(p) && is_point(q) implies (
    #[trigger] polygon::xy_term()(p, q)).side == 0 && polygon::xy_term()(q, p).v
        == -polygon::xy_term()(p, q).v by {
        lemma_xy_directed(p, q);
    }
}

/// A loop gone through backwards has the negated sum.
pub proof fn lemma_reversed_sum(
    poly: Seq<Vector2<Ideal>>,
    term: spec_fn(Vector2<Ideal>, Vector2<Ideal>) -> Ideal,
)
    requires
        has_points(poly),
        is_directed(term),
    ensures
        polygon::loop_sum(poly.reverse(), term) == polygon::loop_sum(poly, term).negated(),
{
    let n = poly.len();
    let back = poly.reverse();
    assert(has_points(back)) by {
        assert forall|i: int| 0 <= i < back.len() implies is_point(#[trigger] back[i]) by {
            assert(is_point(poly[n - 1 - i]));
        }
    }
    lemma_loop_sum(poly, term);
    lemma_loop_sum(back, term);
    if n > 0 {
        let e = edge_values(poly, term);
        let k = (n - 1) as nat;
        let f = |j: int| e((j + k) % n as int);
        let g = |i: int| -1real * f(n - 1 - i);
        assert forall|i: int| 0 <= i < n implies #[trigger] edge_values(back, term)(i) == g(i) by {
            let j = n - 1 - i;
            polygon::lemma_next(i, n as int);
            if j == 0 {
                vstd::arithmetic::div_mod::lemma_small_mod(k, n);
                polygon::lemma_next(k as int, n as int);
                assert(is_point(poly[0]) && is_point(poly[k as int]));
                assert(term(poly[0], poly[k as int]).v == -term(poly[k as int], poly[0]).v);
            } else {
                vstd::arithmetic::div_mod::lemma_mod_add_multiples_vanish(j - 1, n as int);
                vstd::arithmetic::div_mod::lemma_small_mod((j - 1) as nat, n);
                assert(j + k == n + (j - 1));
                polygon::lemma_next(j - 1, n as int);
                assert(is_point(poly[j]) && is_point(poly[j - 1]));
                assert(term(poly[j], poly[j - 1]).v == -term(poly[j - 1], poly[j]).v);
            }
        }
        series::lemma_same(edge_values(back, term), g, n);
        series::lemma_scaled(-1real, |i: int| f(n - 1 - i), n);
        series::lemma_same(g, |i: int| -1real * (|i: int| f(n - 1 - i))(i), n);
        series::lemma_reversed(f, n);
        series::lemma_rotated(e, n, k);
    }
}

/// A loop gone through from another vertex on has the same sum.
pub proof fn lemma_rotated_sum(
    poly: Seq<Vector2<Ideal>>,
    term: spec_fn(Vector2<Ideal>, Vector2<Ideal>) -> Ideal,
    k: nat,
)
    requires
        has_points(poly),
        is_directed(term),
        k < poly.len(),
    ensures
        polygon::loop_sum(rotated(poly, k as int), term) == polygon::loop_sum(poly, term),
{
    let n = poly.len();
    let other = rotated(poly, k as int);
    let e = edge_values(poly, term);
    assert forall|i: int| 0 <= i < n implies #[trigger] other[i] == poly[(i + k) % n as int] by {
        lemma_wraps(i, k, n);
    }
    assert(has_points(other)) by {
        assert forall|i: int| 0 <= i < n implies is_point(#[trigger] other[i]) by {
            lemma_wraps(i, k, n);
            assert(is_point(poly[(i + k) % n as int]));
        }
    }
    lemma_loop_sum(poly, term);
    lemma_loop_sum(other, term);
    let f = |i: int| e((i + k) % n as int);
    assert forall|i: int| 0 <= i < n implies #[trigger] edge_values(other, term)(i) == f(i) by {
        polygon::lemma_next(i, n as int);
        let j = (i + k) % n as int;
        lemma_wraps(i, k, n);
        polygon::lemma_next(j, n as int);
        let next = (i + 1) % n as int;
        lemma_wraps(next, k, n);
        assert(other[next] == poly[(next + k) % n as int]);
        assert((next + k) % n as int == (j + 1) % n as int);
    }
    series::lemma_same(edge_values(other, term), f, n);
    series::lemma_rotated(e, n, k);
}

/// Where an index goes that is moved on around a loop.
proof fn lemma_wraps(i: int, k: nat, n: nat)
    requires
        0 <= i < n,
        k < n,
    ensures
        (i + k) % n as int == if i + k < n {
            i + k
        } else {
            i + k - n
        },
{
    if i + k < n {
        vstd::arithmetic::div_mod::lemma_small_mod((i + k) as nat, n);
    } else {
        vstd::arithmetic::div_mod::lemma_mod_add_multiples_vanish(i + k - n, n as int);
        vstd::arithmetic::div_mod::lemma_small_mod((i + k - n) as nat, n);
    }
}

/// A polygon gone through backwards has the negated area and the same centroid.
pub proof fn law_reversed_polygon(poly: Seq<Vector2<Ideal>>)
    requires
        has_points(poly),
    ensures
        polygon::area_of(poly.reverse()) == polygon::area_of(poly).negated(),
        polygon::centroid_of(poly.reverse()) == polygon::centroid_of(poly),
{
    lemma_terms();
    lemma_reversed_sum(poly, polygon::area_term());
    lemma_reversed_sum(poly, polygon::x_term());
    lemma_reversed_sum(poly, polygon::y_term());
    lemma_loop_sum(poly, polygon::area_term());
    lemma_loop_sum(poly, polygon::x_term());
    lemma_loop_sum(poly, polygon::y_term());
    let a = polygon::loop_sum(poly, polygon::area_term()).v;
    let x = polygon::loop_sum(poly, polygon::x_term()).v;
    let y = polygon::loop_sum(poly, polygon::y_term()).v;
    let h = polygon::half_value::<Ideal>().v;
    assert((-a) * h == -(a * h)) by (nonlinear_arith);
    assert(3real * (-a) == -(3real * a));
    if a != 0real {
        lemma_negated_quotient(x, 3real * a);
        lemma_negated_quotient(y, 3real * a);
    }
    assert(polygon::raw_centroid(poly.reverse()) == polygon::raw_centroid(poly));
    polygon::law_snap_ignores_sign(polygon::raw_centroid(poly), polygon::area_of(poly));
}

proof fn lemma_negated_quotient(x: real, d: real)
    by (nonlinear_arith)
    requires
        d != 0real,
    ensures
        (-x) / (-d) == x / d,
{
}

/// A polygon gone through from another vertex on has the same area and the same centroid.
pub proof fn law_rotated_polygon(poly: Seq<Vector2<Ideal>>, k: nat)
    requires
        has_points(poly),
        k < poly.len(),
    ensures
        polygon::area_of(rotated(poly, k as int)) == polygon::area_of(poly),
        polygon::centroid_of(rotated(poly, k as int)) == polygon::centroid_of(poly),
{
    lemma_terms();
    lemma_rotated_sum(poly, polygon::area_term(), k);
    lemma_rotated_sum(poly, polygon::x_term(), k);
    lemma_rotated_sum(poly, polygon::y_term(), k);
}

/// A vertex more at the end of a loop makes two edges of the one that closed it.
pub proof fn lemma_pushed_sum(
    poly: Seq<Vector2<Ideal>>,
    term: spec_fn(Vector2<Ideal>, Vector2<Ideal>) -> Ideal,
    p: Vector2<Ideal>,
)
    requires
        has_points(poly),
        is_directed(term),
        is_point(p),
        poly.len() > 0,
    ensures
        has_points(poly.push(p)),
        polygon::loop_sum(poly.push(p), term) == ideal::number(
            polygon::loop_sum(poly, term).v - term(poly.last(), poly[0]).v + term(
                poly.last(),
                p,
            ).v + term(p, poly[0]).v,
        ),
{
    let n = poly.len();
    let m = (n - 1) as nat;
    let other = poly.push(p);
    assert(has_points(other)) by {
        assert forall|i: int| 0 <= i < other.len() implies is_point(#[trigger] other[i]) by {
            if i < n {
                assert(is_point(poly[i]));
            }
        }
    }
    lemma_loop_sum(poly, term);
    lemma_loop_sum(other, term);
    let e = edge_values(poly, term);
    let f = edge_values(other, term);
    assert forall|i: int| 0 <= i < m implies #[trigger] e(i) == f(i) by {
        polygon::lemma_next(i, n as int);
        polygon::lemma_next(i, (n + 1) as int);
    }
    series::lemma_same(e, f, m);
    polygon::lemma_next(m as int, n as int);
    polygon::lemma_next(m as int, (n + 1) as int);
    polygon::lemma_next(n as int, (n + 1) as int);
    assert(series::sum(e, n) == series::sum(e, m) + e(m as int));
    assert(series::sum(f, n) == series::sum(f, m) + f(m as int));
    assert(series::sum(f, (n + 1) as nat) == series::sum(f, n) + f(n as int));
}

/// A vertex more within a loop makes two edges of one.
pub proof fn lemma_inserted_sum(
    poly: Seq<Vector2<Ideal>>,
    term: spec_fn(Vector2<Ideal>, Vector2<Ideal>) -> Ideal,
    i: int,
    p: Vector2<Ideal>,
)
    requires
        has_points(poly),
        is_directed(term),
        is_point(p),
        0 <= i < poly.len(),
    ensures
        has_points(poly.insert(i + 1, p)),
        polygon::loop_sum(poly.insert(i + 1, p), term) == ideal::number(
            polygon::loop_sum(poly, term).v - term(poly[i], poly[(i + 1) % poly.len() as int]).v
                + term(poly[i], p).v + term(p, poly[(i + 1) % poly.len() as int]).v,
        ),
{
    let n = poly.len();
    let other = poly.insert(i + 1, p);
    polygon::lemma_next(i, n as int);
    if i + 1 == n {
        assert(other =~= poly.push(p));
        lemma_pushed_sum(poly, term, p);
    } else {
        let l = rotated(poly, i + 1);
        assert(has_points(l)) by {
            assert forall|k: int| 0 <= k < n implies is_point(#[trigger] l[k]) by {
                if k < n - (i + 1) {
                    assert(is_point(poly[k + i + 1]));
                } else {
                    assert(is_point(poly[k - (n - (i + 1))]));
                }
            }
        }
        assert(has_points(other)) by {
            assert forall|k: int| 0 <= k < other.len() implies is_point(#[trigger] other[k]) by {
                if k <= i {
                    assert(is_point(poly[k]));
                } else if k > i + 1 {
                    assert(is_point(poly[k - 1]));
                }
            }
        }
        lemma_rotated_sum(poly, term, (i + 1) as nat);
        lemma_rotated_sum(other, term, (i + 2) as nat);
        assert(rotated(other, i + 2) =~= l.push(p));
        lemma_pushed_sum(l, term, p);
        assert(l[0] == poly[i + 1] && l.last() == poly[i]);
    }
}

/// The points in their order, each but once where it stands several times in a row.
pub open spec fn without_repeats(points: Seq<Vector2<Ideal>>) -> Seq<Vector2<Ideal>>
    decreases points.len(),
{
    if points.len() <= 1 {
        points
    } else {
        let kept = without_repeats(points.drop_last());
        if points.last() == kept.last() {
            kept
        } else {
            kept.push(points.last())
        }
    }
}

/// Points that stand several times in a row make no difference to a sum.
pub proof fn lemma_repeated_sum(
    points: Seq<Vector2<Ideal>>,
    term: spec_fn(Vector2<Ideal>, Vector2<Ideal>) -> Ideal,
)
    requires
        has_points(points),
        is_directed(term),
    ensures
        has_points(without_repeats(points)),
        polygon::loop_sum(without_repeats(points), term) == polygon::loop_sum(points, term),
        points.len() > 0 ==> without_repeats(points).len() > 0 && without_repeats(points).last()
            == points.last() && without_repeats(points)[0] == points[0],
    decreases points.len(),
{
    if points.len() > 1 {
        let rest = points.drop_last();
        let p = points[points.len() - 1];
        assert(has_points(rest)) by {
            assert forall|i: int| 0 <= i < rest.len() implies is_point(#[trigger] rest[i]) by {
                assert(rest[i] == points[i]);
            }
        }
        assert(is_point(p));
        lemma_repeated_sum(rest, term);
        let kept = without_repeats(rest);
        assert(points =~= rest.push(p));
        lemma_pushed_sum(rest, term, p);
        lemma_pushed_sum(kept, term, p);
        assert(is_point(rest[rest.len() - 1]) && is_point(rest[0]));
        if p == kept.last() {
            assert(term(p, p).v == -term(p, p).v);
            lemma_loop_sum(kept, term);
        }
    }
}

/// Does `map` take points to points, and the term `term` of an edge to `c` times its `other` term?
spec fn is_carried(
    map: spec_fn(Vector2<Ideal>) -> Vector2<Ideal>,
    term: spec_fn(Vector2<Ideal>, Vector2<Ideal>) -> Ideal,
    other: spec_fn(Vector2<Ideal>, Vector2<Ideal>) -> Ideal,
    c: real,
) -> bool {
    forall|p: Vector2<Ideal>, q: Vector2<Ideal>|
        is_point(p) && is_point(q) ==> is_point(map(p)) && (#[trigger] term(map(p), map(q))).v == c
            * other(p, q).v
}

/// What a map does to every edge it does to the sum.
proof fn lemma_carried_sum(
    poly: Seq<Vector2<Ideal>>,
    map: spec_fn(Vector2<Ideal>) -> Vector2<Ideal>,
    term: spec_fn(Vector2<Ideal>, Vector2<Ideal>) -> Ideal,
    other: spec_fn(Vector2<Ideal>, Vector2<Ideal>) -> Ideal,
    c: real,
)
    requires
        has_points(poly),
        is_directed(term),
        is_directed(other),
        is_carried(map, term, other, c),
    ensures
        has_points(poly.map_values(map)),
        polygon::loop_sum(poly.map_values(map), term) == ideal::number(
            c * polygon::loop_sum(poly, other).v,
        ),
{
    let n = poly.len();
    let image = poly.map_values(map);
    assert forall|i: int| 0 <= i < n implies is_point(#[trigger] image[i]) by {
        assert(is_point(poly[i]));
        let _ = term(map(poly[i]), map(poly[i]));
    }
    lemma_loop_sum(poly, other);
    lemma_loop_sum(image, term);
    let e = edge_values(poly, other);
    let f = |i: int| c * e(i);
    assert forall|i: int| 0 <= i < n implies #[trigger] edge_values(image, term)(i) == f(i) by {
        polygon::lemma_next(i, n as int);
        let (p, q) = (poly[i], poly[(i + 1) % n as int]);
        assert(is_point(p) && is_point(q));
        assert(term(map(p), map(q)).v == c * other(p, q).v);
    }
    series::lemma_same(edge_values(image, term), f, n);
    series::lemma_scaled(c, e, n);
}

/// The point with its coordinates exchanged.
pub open spec fn exchanged(p: Vector2<Ideal>) -> Vector2<Ideal> {
    Vector2 { x: p.y, y: p.x }
}

/// The loop with its axes exchanged, which turns it over, gone through backwards, which turns it
/// back.
pub open spec fn exchanged_loop(poly: Seq<Vector2<Ideal>>) -> Seq<Vector2<Ideal>> {
    poly.map_values(|p: Vector2<Ideal>| exchanged(p)).reverse()
}

proof fn lemma_exchanged_terms(p: Vector2<Ideal>, q: Vector2<Ideal>)
    requires
        is_point(p),
        is_point(q),
    ensures
        polygon::x_term()(exchanged(p), exchanged(q)).v == -polygon::y_term()(p, q).v,
        polygon::y_term()(exchanged(p), exchanged(q)).v == -polygon::x_term()(p, q).v,
        polygon::xx_term()(exchanged(p), exchanged(q)).v == -polygon::yy_term()(p, q).v,
        polygon::yy_term()(exchanged(p), exchanged(q)).v == -polygon::xx_term()(p, q).v,
        polygon::xy_term()(exchanged(p), exchanged(q)).v == -polygon::xy_term()(p, q).v,
{
    let (a, b, c, d) = (p.x.v, p.y.v, q.x.v, q.y.v);
    let o = p.outer(q).v;
    let w = a * d + 2real * a * b + 2real * c * d + c * b;
    let v = b * c + 2real * b * a + 2real * d * c + d * a;
    assert(exchanged(p).outer(exchanged(q)).v == -o);
    assert(v == w) by (nonlinear_arith)
        requires
            w == a * d + 2real * a * b + 2real * c * d + c * b,
            v == b * c + 2real * b * a + 2real * d * c + d * a,
    ;
    assert(polygon::xy_term()(p, q).v == w * o);
    assert(polygon::xy_term()(exchanged(p), exchanged(q)).v == v * (-o));
    lemma_negated(w, o);
    lemma_negated(a + c, o);
    lemma_negated(b + d, o);
    lemma_negated(a * a + a * c + c * c, o);
    lemma_negated(b * b + b * d + d * d, o);
}

/// What exchanging the axes does to the sums over a loop: it exchanges the two axes in them.
proof fn lemma_exchanged_sums(poly: Seq<Vector2<Ideal>>)
    requires
        has_points(poly),
    ensures
        has_points(exchanged_loop(poly)),
        polygon::loop_sum(exchanged_loop(poly), polygon::area_term()) == polygon::loop_sum(
            poly,
            polygon::area_term(),
        ),
        polygon::loop_sum(exchanged_loop(poly), polygon::x_term()) == polygon::loop_sum(
            poly,
            polygon::y_term(),
        ),
        polygon::loop_sum(exchanged_loop(poly), polygon::y_term()) == polygon::loop_sum(
            poly,
            polygon::x_term(),
        ),
        polygon::loop_sum(exchanged_loop(poly), polygon::xx_term()) == polygon::loop_sum(
            poly,
            polygon::yy_term(),
        ),
        polygon::loop_sum(exchanged_loop(poly), polygon::yy_term()) == polygon::loop_sum(
            poly,
            polygon::xx_term(),
        ),
        polygon::loop_sum(exchanged_loop(poly), polygon::xy_term()) == polygon::loop_sum(
            poly,
            polygon::xy_term(),
        ),
{
    lemma_terms();
    assert forall|p: Vector2<Ideal>, q: Vector2<Ideal>| is_point(p) && is_point(q) implies (
    #[trigger] polygon::xx_term()(exchanged(p), exchanged(q))).v == -polygon::yy_term()(p, q).v by {
        lemma_exchanged_terms(p, q);
    }
    assert forall|p: Vector2<Ideal>, q: Vector2<Ideal>| is_point(p) && is_point(q) implies (
    #[trigger] polygon::yy_term()(exchanged(p), exchanged(q))).v == -polygon::xx_term()(p, q).v by {
        lemma_exchanged_terms(p, q);
    }
    assert forall|p: Vector2<Ideal>, q: Vector2<Ideal>| is_point(p) && is_point(q) implies (
    #[trigger] polygon::xy_term()(exchanged(p), exchanged(q))).v == -polygon::xy_term()(p, q).v by {
        lemma_exchanged_terms(p, q);
    }
    assert forall|p: Vector2<Ideal>, q: Vector2<Ideal>| is_point(p) && is_point(q) implies (
    #[trigger] polygon::x_term()(exchanged(p), exchanged(q))).v == -polygon::y_term()(p, q).v by {
        lemma_exchanged_terms(p, q);
    }
    assert forall|p: Vector2<Ideal>, q: Vector2<Ideal>| is_point(p) && is_point(q) implies (
    #[trigger] polygon::y_term()(exchanged(p), exchanged(q))).v == -polygon::x_term()(p, q).v by {
        lemma_exchanged_terms(p, q);
    }
    lemma_exchanged_sum(poly, polygon::area_term(), polygon::area_term());
    lemma_exchanged_sum(poly, polygon::x_term(), polygon::y_term());
    lemma_exchanged_sum(poly, polygon::y_term(), polygon::x_term());
    lemma_exchanged_sum(poly, polygon::xx_term(), polygon::yy_term());
    lemma_exchanged_sum(poly, polygon::yy_term(), polygon::xx_term());
    lemma_exchanged_sum(poly, polygon::xy_term(), polygon::xy_term());
}

proof fn lemma_exchanged_sum(
    poly: Seq<Vector2<Ideal>>,
    term: spec_fn(Vector2<Ideal>, Vector2<Ideal>) -> Ideal,
    other: spec_fn(Vector2<Ideal>, Vector2<Ideal>) -> Ideal,
)
    requires
        has_points(poly),
        is_directed(term),
        is_directed(other),
        forall|p: Vector2<Ideal>, q: Vector2<Ideal>|
            is_point(p) && is_point(q) ==> (#[trigger] term(exchanged(p), exchanged(q))).v
                == -other(p, q).v,
    ensures
        has_points(exchanged_loop(poly)),
        polygon::loop_sum(exchanged_loop(poly), term) == polygon::loop_sum(poly, other),
{
    let map = |p: Vector2<Ideal>| exchanged(p);
    let image = poly.map_values(map);
    assert(is_carried(map, term, other, -1real)) by {
        assert forall|p: Vector2<Ideal>, q: Vector2<Ideal>| is_point(p) && is_point(q) implies
            is_point(map(p)) && (#[trigger] term(map(p), map(q))).v == -1real * other(p, q).v by {
            assert(term(exchanged(p), exchanged(q)).v == -other(p, q).v);
        }
    }
    lemma_carried_sum(poly, map, term, other, -1real);
    lemma_reversed_sum(image, term);
    lemma_loop_sum(poly, other);
    assert(has_points(image.reverse())) by {
        assert forall|i: int| 0 <= i < image.len() implies is_point(
            #[trigger] image.reverse()[i],
        ) by {
            assert(is_point(image[image.len() - 1 - i]));
        }
    }
}

/// Exchanging the axes of a polygon exchanges the coordinates of its centroid and its two second
/// moments, and keeps its area and its product moment.
pub proof fn law_exchanged_polygon(poly: Seq<Vector2<Ideal>>)
    requires
        has_points(poly),
    ensures
        has_points(exchanged_loop(poly)),
        polygon::loop_sum(exchanged_loop(poly), polygon::area_term()) == polygon::loop_sum(
            poly,
            polygon::area_term(),
        ),
        polygon::raw_centroid(exchanged_loop(poly)) == exchanged(polygon::raw_centroid(poly)),
        polygon::central_xx(exchanged_loop(poly)) == polygon::central_yy(poly),
        polygon::central_yy(exchanged_loop(poly)) == polygon::central_xx(poly),
        polygon::central_xy(exchanged_loop(poly)) == polygon::central_xy(poly),
{
    lemma_exchanged_sums(poly);
    lemma_terms();
    lemma_loop_sum(poly, polygon::area_term());
    lemma_loop_sum(poly, polygon::x_term());
    lemma_loop_sum(poly, polygon::y_term());
    let a = polygon::signed_area(poly);
    let c = polygon::raw_centroid(poly);
    ideal::lemma_assoc(a.v, c.x.v, c.y.v);
    assert(a.times(c.x).times(c.y) == a.times(c.y).times(c.x));
}

/// Exchanging the axes of a straight-edged profile exchanges the coordinates of its centroid and
/// its two second moments, and keeps its area and its product moment.
pub proof fn law_exchanged_section(shape: ExtrudedProfile<Ideal>, other: ExtrudedProfile<Ideal>)
    requires
        has_points(shape.profile@),
        shape.arcs@.len() == 0,
        other.arcs@.len() == 0,
        other.profile@ == exchanged_loop(shape.profile@),
    ensures
        ({
            let (area, c, ixx, izz, ixz) = shape.section_spec();
            other.section_spec() == (area, exchanged(c), izz, ixx, ixz)
        }),
{
    let poly = shape.profile@;
    law_exchanged_polygon(poly);
    lemma_exchanged_sums(poly);
    lemma_terms();
    lemma_loop_sum(poly, polygon::area_term());
    lemma_loop_sum(poly, polygon::x_term());
    lemma_loop_sum(poly, polygon::y_term());
    let a = polygon::signed_area(poly);
    let c = shape.exact_centroid();
    ideal::lemma_assoc(a.v, c.x.v, c.y.v);
    if !shape.is_degenerate() {
        assert(other.exact_centroid() == exchanged(c));
        assert(a.times(c.x).times(c.y) == a.times(c.y).times(c.x));
    }
}

/// Two factors turn the plane over if their product is negative.
pub proof fn lemma_mirrors(scale: Vector<Ideal>)
    requires
        scale.x.side == 0 && scale.z.side == 0,
    ensures
        ExtrudedProfile::<Ideal>::mirrors(scale) == (scale.x.v * scale.z.v < 0real),
{
    let (x, z) = (scale.x.v, scale.z.v);
    assert((x * z < 0real) == ((x < 0real && 0real < z) || (0real < x && z < 0real)))
        by (nonlinear_arith);
}

/// Scaling multiplies the area of a straight-edged profile by the factors of the plane, whatever
/// their signs: a mirror image runs the same way round as the profile does.
pub proof fn law_scaled_area(
    shape: ExtrudedProfile<Ideal>,
    scaled: ExtrudedProfile<Ideal>,
    scale: Vector<Ideal>,
)
    requires
        has_points(shape.profile@),
        scaled.is_scaled(shape, scale),
        scale.x.side == 0 && scale.z.side == 0,
    ensures
        polygon::loop_sum(scaled.profile@, polygon::area_term()).v == scale.x.times(
            scale.z,
        ).magnitude().v * polygon::loop_sum(shape.profile@, polygon::area_term()).v,
{
    let (x, z) = (scale.x.v, scale.z.v);
    lemma_mirrors(scale);
    let poly = shape.profile@;
    let map = |p: Vector2<Ideal>| Vector2 { x: p.x.times(scale.x), y: p.y.times(scale.z) };
    lemma_terms();
    assert(is_carried(map, polygon::area_term(), polygon::area_term(), x * z)) by {
        assert forall|p: Vector2<Ideal>, q: Vector2<Ideal>| is_point(p) && is_point(q) implies
            is_point(map(p)) && (#[trigger] polygon::area_term()(map(p), map(q))).v == (x * z)
            * polygon::area_term()(p, q).v by {
            ideal::lemma_pairs(p.x.v, x, q.y.v, z);
            ideal::lemma_pairs(q.x.v, x, p.y.v, z);
            ideal::lemma_dist(x * z, p.x.v * q.y.v, q.x.v * p.y.v);
        }
    }
    lemma_carried_sum(poly, map, polygon::area_term(), polygon::area_term(), x * z);
    lemma_reversed_sum(poly.map_values(map), polygon::area_term());
    let a = polygon::loop_sum(poly, polygon::area_term()).v;
    ideal::lemma_dist(a, x * z, 0real);
    ideal::lemma_dist(-(x * z), a, 0real);
    assert(shape.scaled_vertices(scale) =~= poly.map_values(map));
}

} // verus!
