//! Sums over loops in fixed point. Only products are rounded there, never sums, so that it makes no
//! difference where a loop starts, and none but the sign which way it is gone through.
use vstd::prelude::*;

use crate::exact;
use crate::fixed;
use crate::fixed::Fixed;
use crate::fixed::ONE;
use crate::polygon;
use crate::profile;
use crate::profile::ExtrudedProfile;
use crate::scalar::Scalar;
use crate::series;
use crate::vector::Vector2;

verus! {

/// The largest term of an edge that leaves room for a sum.
pub const MODEST: i64 = 0x10_0000_0000_0000;

/// What is summed up over the edges of a loop, in steps.
pub open spec fn edge_steps(
    poly: Seq<Vector2<Fixed>>,
    term: spec_fn(Vector2<Fixed>, Vector2<Fixed>) -> Fixed,
) -> spec_fn(int) -> real {
    |i: int| term(poly[i], poly[(i + 1) % poly.len() as int]).raw as real
}

/// Is the term of every edge small enough, and are there few enough, to be summed up?
pub open spec fn is_summable(
    poly: Seq<Vector2<Fixed>>,
    term: spec_fn(Vector2<Fixed>, Vector2<Fixed>) -> Fixed,
) -> bool {
    &&& poly.len() <= exact::ROOM_VERTICES
    &&& forall|i: int| 0 <= i < poly.len() ==> #[trigger] is_modest_at(poly, term, i)
}

/// Is the edge of the loop from its `i`-th vertex on modest?
pub open spec fn is_modest_at(
    poly: Seq<Vector2<Fixed>>,
    term: spec_fn(Vector2<Fixed>, Vector2<Fixed>) -> Fixed,
    i: int,
) -> bool {
    is_modest_edge(term, poly[i], poly[(i + 1) % poly.len() as int])
}

/// Is the term of the edge small enough, and that of the edge gone through backwards its negation?
pub open spec fn is_modest_edge(
    term: spec_fn(Vector2<Fixed>, Vector2<Fixed>) -> Fixed,
    p: Vector2<Fixed>,
    q: Vector2<Fixed>,
) -> bool {
    -MODEST <= term(p, q).raw <= MODEST && term(q, p).raw == -term(p, q).raw
}

proof fn lemma_edge_sum(
    poly: Seq<Vector2<Fixed>>,
    term: spec_fn(Vector2<Fixed>, Vector2<Fixed>) -> Fixed,
    n: nat,
)
    requires
        is_summable(poly, term),
        n <= poly.len(),
    ensures
        polygon::edge_sum(poly, term, n).raw as real == series::sum(edge_steps(poly, term), n),
        -(n * MODEST) <= polygon::edge_sum(poly, term, n).raw <= n * MODEST,
    decreases n,
{
    if n > 0 {
        let i = n - 1;
        lemma_edge_sum(poly, term, i as nat);
        let (p, q) = (poly[i], poly[(i + 1) % poly.len() as int]);
        assert(is_modest_at(poly, term, i));
        let (a, b) = (polygon::edge_sum(poly, term, i as nat).raw, term(p, q).raw);
        assert(polygon::edge_sum(poly, term, n).raw == a + b);
        assert((a + b) as real == a as real + b as real);
        assert(n * MODEST == i * MODEST + MODEST);
    }
}

/// The sum over the edges of a loop, as a series.
proof fn lemma_loop_sum(
    poly: Seq<Vector2<Fixed>>,
    term: spec_fn(Vector2<Fixed>, Vector2<Fixed>) -> Fixed,
)
    requires
        is_summable(poly, term),
    ensures
        polygon::loop_sum(poly, term).raw as real == series::sum(
            edge_steps(poly, term),
            poly.len(),
        ),
        -0x4000_0000_0000_0000 <= polygon::loop_sum(poly, term).raw <= 0x4000_0000_0000_0000,
{
    lemma_edge_sum(poly, term, poly.len());
    assert(poly.len() * MODEST <= 1024 * MODEST) by (nonlinear_arith)
        requires
            poly.len() <= 1024,
            0 < MODEST,
    ;
}

/// `poly`, gone through from its `k`-th vertex on.
pub open spec fn rotated(poly: Seq<Vector2<Fixed>>, k: int) -> Seq<Vector2<Fixed>> {
    poly.skip(k) + poly.take(k)
}

proof fn lemma_wraps(i: int, k: nat, n: nat)
    requires
        0 <= i < n,
        k < n,
    ensures
        (i + k) % n as int == if i + k < n {
            i + k
        } else {
            i + k - n
        },
{
    if i + k < n {
        vstd::arithmetic::div_mod::lemma_small_mod((i + k) as nat, n);
    } else {
        vstd::arithmetic::div_mod::lemma_mod_add_multiples_vanish(i + k - n, n as int);
        vstd::arithmetic::div_mod::lemma_small_mod((i + k - n) as nat, n);
    }
}

/// The edge of a rotated loop.
proof fn lemma_rotated_edge(poly: Seq<Vector2<Fixed>>, k: nat, i: int)
    requires
        k < poly.len(),
        0 <= i < poly.len(),
    ensures
        ({
            let n = poly.len() as int;
            let other = rotated(poly, k as int);
            let j = (i + k) % n;
            &&& 0 <= j < n
            &&& other[i] == poly[j]
            &&& other[(i + 1) % n] == poly[(j + 1) % n]
        }),
{
    let n = poly.len();
    let j = (i + k) % n as int;
    lemma_wraps(i, k, n);
    polygon::lemma_next(i, n as int);
    polygon::lemma_next(j, n as int);
    let next = (i + 1) % n as int;
    lemma_wraps(next, k, n);
}

/// A loop gone through from another vertex on has the same sum, to the step.
pub proof fn lemma_rotated_sum(
    poly: Seq<Vector2<Fixed>>,
    term: spec_fn(Vector2<Fixed>, Vector2<Fixed>) -> Fixed,
    k: nat,
)
    requires
        is_summable(poly, term),
        k < poly.len(),
    ensures
        polygon::loop_sum(rotated(poly, k as int), term) == polygon::loop_sum(poly, term),
{
    let n = poly.len();
    let other = rotated(poly, k as int);
    assert(is_summable(other, term)) by {
        assert forall|i: int| 0 <= i < other.len() implies #[trigger] is_modest_at(
            other,
            term,
            i,
        ) by {
            lemma_rotated_edge(poly, k, i);
            assert(is_modest_at(poly, term, (i + k) % n as int));
        }
    }
    lemma_loop_sum(poly, term);
    lemma_loop_sum(other, term);
    let e = edge_steps(poly, term);
    let f = |i: int| e((i + k) % n as int);
    assert forall|i: int| 0 <= i < n implies #[trigger] edge_steps(other, term)(i) == f(i) by {
        lemma_rotated_edge(poly, k, i);
    }
    series::lemma_same(edge_steps(other, term), f, n);
    series::lemma_rotated(e, n, k);
    lemma_same_steps(polygon::loop_sum(other, term).raw, polygon::loop_sum(poly, term).raw);
}

proof fn lemma_same_steps(a: i64, b: i64)
    requires
        a as real == b as real,
    ensures
        a == b,
{
    if a < b {
        assert(((a as int) as real) < ((b as int) as real));
    } else if b < a {
        assert(((b as int) as real) < ((a as int) as real));
    }
}

/// Which edge of a loop of `n` the `i`-th is once it is gone through backwards.
spec fn back_edge(n: int, i: int) -> int {
    if i + 1 == n {
        n - 1
    } else {
        n - 2 - i
    }
}

proof fn lemma_reversed_edge(poly: Seq<Vector2<Fixed>>, i: int)
    requires
        0 <= i < poly.len(),
    ensures
        ({
            let n = poly.len() as int;
            let back = poly.reverse();
            let j = back_edge(n, i);
            &&& 0 <= j < n
            &&& (n - 1 - i + (n - 1)) % n == j
            &&& back[i] == poly[(j + 1) % n]
            &&& back[(i + 1) % n] == poly[j]
        }),
{
    let n = poly.len();
    lemma_wraps(n - 1 - i, (n - 1) as nat, n);
    polygon::lemma_next(i, n as int);
    polygon::lemma_next(back_edge(n as int, i), n as int);
}

proof fn lemma_reversed_summable(
    poly: Seq<Vector2<Fixed>>,
    term: spec_fn(Vector2<Fixed>, Vector2<Fixed>) -> Fixed,
    i: int,
)
    requires
        is_summable(poly, term),
        0 <= i < poly.len(),
    ensures
        is_modest_edge(term, poly.reverse()[i], poly.reverse()[(i + 1) % poly.len() as int]),
        edge_steps(poly.reverse(), term)(i) == -edge_steps(poly, term)(
            back_edge(poly.len() as int, i),
        ),
{
    let n = poly.len() as int;
    lemma_reversed_edge(poly, i);
    let j = back_edge(n, i);
    assert(is_modest_at(poly, term, j));
    let x = term(poly[j], poly[(j + 1) % n]).raw;
    assert((-x) as real == -(x as real));
}

/// A loop gone through backwards has the negated sum, to the step.
pub proof fn lemma_reversed_sum(
    poly: Seq<Vector2<Fixed>>,
    term: spec_fn(Vector2<Fixed>, Vector2<Fixed>) -> Fixed,
)
    requires
        is_summable(poly, term),
    ensures
        polygon::loop_sum(poly.reverse(), term).raw == -polygon::loop_sum(poly, term).raw,
{
    let n = poly.len();
    let back = poly.reverse();
    assert(is_summable(back, term)) by {
        assert forall|i: int| 0 <= i < back.len() implies #[trigger] is_modest_at(
            back,
            term,
            i,
        ) by {
            lemma_reversed_summable(poly, term, i);
        }
    }
    lemma_loop_sum(poly, term);
    lemma_loop_sum(back, term);
    if n > 0 {
        lemma_reversed_series(poly, term);
        let (a, b) = (polygon::loop_sum(back, term).raw, polygon::loop_sum(poly, term).raw);
        assert(a as real == -(b as real));
        assert((-b) as real == -(b as real));
        lemma_same_steps(a, (-b) as i64);
    }
}

proof fn lemma_reversed_series(
    poly: Seq<Vector2<Fixed>>,
    term: spec_fn(Vector2<Fixed>, Vector2<Fixed>) -> Fixed,
)
    requires
        is_summable(poly, term),
        poly.len() > 0,
    ensures
        series::sum(edge_steps(poly.reverse(), term), poly.len()) == -series::sum(
            edge_steps(poly, term),
            poly.len(),
        ),
{
    let n = poly.len();
    let e = edge_steps(poly, term);
    let k = (n - 1) as nat;
    let f = |j: int| e((j + k) % n as int);
    let r = |i: int| f(n - 1 - i);
    let g = |i: int| -1real * r(i);
    let h = edge_steps(poly.reverse(), term);
    assert forall|i: int| 0 <= i < n implies #[trigger] h(i) == g(i) by {
        lemma_reversed_edge(poly, i);
        lemma_reversed_summable(poly, term, i);
        let x = r(i);
        assert(x == e(back_edge(n as int, i)));
        assert(-1real * x == -x) by (nonlinear_arith);
    }
    series::lemma_same(h, g, n);
    series::lemma_scaled(-1real, r, n);
    series::lemma_reversed(f, n);
    series::lemma_rotated(e, n, k);
    let x = series::sum(e, n);
    assert(-1real * x == -x) by (nonlinear_arith);
}

/// A quotient by one takes the sign of what is divided.
proof fn lemma_quotient_sign(n: int, d: int)
    requires
        d > 0,
    ensures
        fixed::quotient(-n, d) == -fixed::quotient(n, d),
{
    if n == 0 {
        assert(0int / d == 0) by (nonlinear_arith)
            requires
                d > 0,
        ;
    }
}

/// A quotient stays as it is when both change their sign.
proof fn lemma_quotient_of_negated(n: int, d: int)
    requires
        d != 0,
    ensures
        fixed::quotient(-n, -d) == fixed::quotient(n, d),
{
    if n == 0 {
        let size = fixed::magnitude_of(d);
        assert(0int / size == 0) by (nonlinear_arith)
            requires
                size > 0,
        ;
    }
}

/// The terms of area and centroid of a small edge.
proof fn lemma_small_edge(p: Vector2<Fixed>, q: Vector2<Fixed>)
    requires
        exact::is_small(p),
        exact::is_small(q),
    ensures
        is_modest_edge(polygon::area_term(), p, q),
        is_modest_edge(polygon::x_term(), p, q),
        is_modest_edge(polygon::y_term(), p, q),
        -0x2000_0000_0000 <= p.outer(q).raw <= 0x2000_0000_0000,
{
    exact::lemma_outer(p, q);
    exact::lemma_outer(q, p);
    let cross = p.outer(q);
    assert(q.outer(p).raw == -cross.raw) by {
        assert(p.x.raw * q.y.raw == q.y.raw * p.x.raw);
        assert(q.x.raw * p.y.raw == p.y.raw * q.x.raw);
    }
    exact::lemma_weighted(p.x, q.x, cross);
    exact::lemma_weighted(p.y, q.y, cross);
    let (x, y) = (p.x.raw + q.x.raw, p.y.raw + q.y.raw);
    let c = cross.raw as int;
    exact::lemma_signs(x, c);
    exact::lemma_signs(y, c);
    lemma_quotient_sign(x * c, ONE as int);
    lemma_quotient_sign(y * c, ONE as int);
    assert(p.x.plus(q.x).raw == x && p.y.plus(q.y).raw == y);
    assert(q.x.plus(p.x).raw == x && q.y.plus(p.y).raw == y);
}

proof fn lemma_small_at(poly: Seq<Vector2<Fixed>>, i: int)
    requires
        exact::has_room(poly),
        0 <= i < poly.len(),
    ensures
        is_modest_at(poly, polygon::area_term(), i),
        is_modest_at(poly, polygon::x_term(), i),
        is_modest_at(poly, polygon::y_term(), i),
{
    let n = poly.len() as int;
    polygon::lemma_next(i, n);
    assert(exact::is_small(poly[i]) && exact::is_small(poly[(i + 1) % n]));
    lemma_small_edge(poly[i], poly[(i + 1) % n]);
}

proof fn lemma_room(poly: Seq<Vector2<Fixed>>)
    requires
        exact::has_room(poly),
    ensures
        is_summable(poly, polygon::area_term()),
        is_summable(poly, polygon::x_term()),
        is_summable(poly, polygon::y_term()),
        -0x80_0000_0000_0000 <= polygon::loop_sum(poly, polygon::area_term()).raw
            <= 0x80_0000_0000_0000,
{
    let n = poly.len() as int;
    assert forall|i: int| 0 <= i < n implies #[trigger] is_modest_at(
        poly,
        polygon::area_term(),
        i,
    ) by {
        lemma_small_at(poly, i);
    }
    assert forall|i: int| 0 <= i < n implies #[trigger] is_modest_at(
        poly,
        polygon::x_term(),
        i,
    ) by {
        lemma_small_at(poly, i);
    }
    assert forall|i: int| 0 <= i < n implies #[trigger] is_modest_at(
        poly,
        polygon::y_term(),
        i,
    ) by {
        lemma_small_at(poly, i);
    }
    lemma_area_bound(poly, poly.len());
    assert(poly.len() * 0x2000_0000_0000 <= 1024 * 0x2000_0000_0000) by (nonlinear_arith)
        requires
            poly.len() <= 1024,
    ;
}

proof fn lemma_area_bound(poly: Seq<Vector2<Fixed>>, n: nat)
    requires
        exact::has_room(poly),
        n <= poly.len(),
    ensures
        -(n * 0x2000_0000_0000) <= polygon::edge_sum(poly, polygon::area_term(), n).raw <= n
            * 0x2000_0000_0000,
    decreases n,
{
    if n > 0 {
        let i = n - 1;
        lemma_area_bound(poly, i as nat);
        polygon::lemma_next(i, poly.len() as int);
        let (p, q) = (poly[i], poly[(i + 1) % poly.len() as int]);
        assert(exact::is_small(p) && exact::is_small(q));
        lemma_small_edge(p, q);
    }
}

/// In fixed point, a polygon gone through from another vertex on has the same area and the same
/// centroid, to the step.
pub proof fn law_rotated_polygon(poly: Seq<Vector2<Fixed>>, k: nat)
    requires
        exact::has_room(poly),
        k < poly.len(),
    ensures
        polygon::area_of(rotated(poly, k as int)) == polygon::area_of(poly),
        polygon::centroid_of(rotated(poly, k as int)) == polygon::centroid_of(poly),
{
    lemma_room(poly);
    lemma_rotated_sum(poly, polygon::area_term(), k);
    lemma_rotated_sum(poly, polygon::x_term(), k);
    lemma_rotated_sum(poly, polygon::y_term(), k);
    polygon::lemma_same_sums(rotated(poly, k as int), poly);
}

/// Half of the negation is the negation of the half.
proof fn lemma_half_of_negated(a: Fixed, b: Fixed)
    requires
        -0x80_0000_0000_0000 <= a.raw <= 0x80_0000_0000_0000,
        b.raw == -a.raw,
    ensures
        b.times(polygon::half_value()) == a.times(polygon::half_value()).negated(),
        a.times(polygon::half_value()).finite(),
{
    let h = polygon::half_value::<Fixed>();
    exact::lemma_half_raw();
    exact::lemma_signs(a.raw as int, h.raw as int);
    lemma_quotient_sign(a.raw * h.raw, ONE as int);
    exact::lemma_quotient_bound(a.raw * h.raw, 0x80_0000_0000_0000);
}

/// A quotient by three times a number stays as it is when both change their sign.
proof fn lemma_third_of_negated(x: Fixed, y: Fixed, a: Fixed, b: Fixed)
    requires
        -0x80_0000_0000_0000 <= a.raw <= 0x80_0000_0000_0000,
        a.raw != 0,
        b.raw == -a.raw,
        y.raw == -x.raw,
    ensures
        y.over(Fixed::of_count(3).times(b)) == x.over(Fixed::of_count(3).times(a)),
{
    let three = Fixed::of_count(3);
    assert(three.raw == 3 * ONE);
    let (d, e) = (three.times(a), three.times(b));
    let (t, u, v) = (three.raw as int, a.raw as int, b.raw as int);
    assert(t * u == (3 * u) * ONE && t * v == (3 * v) * ONE) by (nonlinear_arith)
        requires
            t == 3 * ONE,
    ;
    lemma_exact_quotient(3 * a.raw);
    lemma_exact_quotient(3 * b.raw);
    assert(d.raw == 3 * a.raw && e.raw == -d.raw);
    lemma_quotient_of_negated(x.raw * ONE, d.raw as int);
    assert(y.raw * ONE == -(x.raw * ONE));
}

/// In fixed point, a polygon gone through backwards has exactly the negated area, and the same
/// centroid, to the step.
pub proof fn law_reversed_polygon(poly: Seq<Vector2<Fixed>>)
    requires
        exact::has_room(poly),
    ensures
        polygon::area_of(poly.reverse()) == polygon::area_of(poly).negated(),
        polygon::centroid_of(poly.reverse()) == polygon::centroid_of(poly),
{
    let back = poly.reverse();
    lemma_room(poly);
    lemma_reversed_sum(poly, polygon::area_term());
    lemma_reversed_sum(poly, polygon::x_term());
    lemma_reversed_sum(poly, polygon::y_term());
    let (a, b) = (
        polygon::loop_sum(poly, polygon::area_term()),
        polygon::loop_sum(back, polygon::area_term()),
    );
    let (x, y) = (
        polygon::loop_sum(poly, polygon::x_term()),
        polygon::loop_sum(poly, polygon::y_term()),
    );
    lemma_half_of_negated(a, b);
    assert(a.magnitude() == b.magnitude());
    if !polygon::is_flat(poly) {
        lemma_third_of_negated(x, polygon::loop_sum(back, polygon::x_term()), a, b);
        lemma_third_of_negated(y, polygon::loop_sum(back, polygon::y_term()), a, b);
    }
    polygon::lemma_negated_sums(poly, back);
}

proof fn lemma_exact_quotient(n: int)
    ensures
        fixed::quotient(n * ONE, ONE as int) == n,
{
    let size = fixed::magnitude_of(n);
    assert((size * ONE) / (ONE as int) == size);
}

/// Coordinates up to this many steps leave room for the second moments too.
pub const SNUG: i64 = 0x10_0000_0000;

/// Are the coordinates small enough for second moments?
pub open spec fn is_snug(p: Vector2<Fixed>) -> bool {
    -SNUG <= p.x.raw <= SNUG && -SNUG <= p.y.raw <= SNUG
}

/// The point with its coordinates exchanged.
pub open spec fn exchanged(p: Vector2<Fixed>) -> Vector2<Fixed> {
    Vector2 { x: p.y, y: p.x }
}

/// The loop with its axes exchanged, which turns it over, gone through backwards, which turns it
/// back.
pub open spec fn exchanged_loop(poly: Seq<Vector2<Fixed>>) -> Seq<Vector2<Fixed>> {
    poly.map_values(|p: Vector2<Fixed>| exchanged(p)).reverse()
}

/// The product of two numbers of steps, in steps.
spec fn product(a: int, b: int) -> int {
    fixed::quotient(a * b, ONE as int)
}

proof fn lemma_product(a: Fixed, b: Fixed)
    requires
        -(2 * SNUG) <= a.raw <= 2 * SNUG,
        -(2 * SNUG) <= b.raw <= 2 * SNUG,
    ensures
        a.times(b).raw == product(a.raw as int, b.raw as int),
        -0x400_0000_0000 <= a.times(b).raw <= 0x400_0000_0000,
        product(a.raw as int, b.raw as int) == product(b.raw as int, a.raw as int),
        -SNUG <= a.raw <= SNUG && -SNUG <= b.raw <= SNUG ==> -0x100_0000_0000 <= a.times(b).raw
            <= 0x100_0000_0000,
{
    let (x, y) = (a.raw as int, b.raw as int);
    exact::lemma_product(x, y, 0x20_0000_0000, 0x20_0000_0000);
    exact::lemma_quotient_bound(x * y, 0x400_0000_0000);
    assert(x * y == y * x) by (nonlinear_arith);
    if -SNUG <= x <= SNUG && -SNUG <= y <= SNUG {
        exact::lemma_product(x, y, SNUG as int, SNUG as int);
        exact::lemma_quotient_bound(x * y, 0x100_0000_0000);
    }
}

/// What a number of steps weighs with what an edge spans.
proof fn lemma_weighed(a: Fixed, cross: Fixed)
    requires
        -0x300_0000_0000 <= a.raw <= 0x300_0000_0000,
        -0x200_0000_0000 <= cross.raw <= 0x200_0000_0000,
    ensures
        -MODEST <= a.times(cross).raw <= MODEST,
        forall|other: Fixed|
            other.raw == -cross.raw ==> (#[trigger] a.times(other)).raw == -a.times(cross).raw,
{
    let (x, c) = (a.raw as int, cross.raw as int);
    exact::lemma_product(x, c, 0x300_0000_0000, 0x200_0000_0000);
    exact::lemma_quotient_bound(x * c, 0x10_0000_0000_0000);
    exact::lemma_signs(x, c);
    lemma_quotient_sign(x * c, ONE as int);
}

/// The weights of the second moments of an edge: the same from either end, and exchanged with the
/// axes.
proof fn lemma_weights(p: Vector2<Fixed>, q: Vector2<Fixed>)
    requires
        is_snug(p),
        is_snug(q),
    ensures
        ({
            let along = |a: Fixed, b: Fixed| a.times(a).plus(a.times(b)).plus(b.times(b));
            &&& along(p.x, q.x) == along(q.x, p.x)
            &&& along(p.y, q.y) == along(q.y, p.y)
            &&& -0x300_0000_0000 <= along(p.x, q.x).raw <= 0x300_0000_0000
            &&& -0x300_0000_0000 <= along(p.y, q.y).raw <= 0x300_0000_0000
        }),
{
    lemma_product(p.x, p.x);
    lemma_product(p.x, q.x);
    lemma_product(q.x, p.x);
    lemma_product(q.x, q.x);
    lemma_product(p.y, p.y);
    lemma_product(p.y, q.y);
    lemma_product(q.y, p.y);
    lemma_product(q.y, q.y);
}

/// What an edge spans: negated from its other end, and negated with the axes exchanged.
proof fn lemma_spans(p: Vector2<Fixed>, q: Vector2<Fixed>)
    requires
        is_snug(p),
        is_snug(q),
    ensures
        -0x200_0000_0000 <= p.outer(q).raw <= 0x200_0000_0000,
        q.outer(p).raw == -p.outer(q).raw,
        exchanged(p).outer(exchanged(q)).raw == -p.outer(q).raw,
{
    lemma_product(p.x, q.y);
    lemma_product(q.x, p.y);
    lemma_product(p.y, q.x);
    lemma_product(q.y, p.x);
}

/// The terms of an edge with the axes exchanged.
proof fn lemma_exchanged_edge(p: Vector2<Fixed>, q: Vector2<Fixed>)
    requires
        is_snug(p),
        is_snug(q),
    ensures
        ({
            let (r, s) = (exchanged(p), exchanged(q));
            &&& is_modest_edge(polygon::area_term(), p, q)
            &&& is_modest_edge(polygon::x_term(), p, q)
            &&& is_modest_edge(polygon::y_term(), p, q)
            &&& is_modest_edge(polygon::xx_term(), p, q)
            &&& is_modest_edge(polygon::yy_term(), p, q)
            &&& polygon::area_term::<Fixed>()(r, s).raw == -polygon::area_term::<Fixed>()(p, q).raw
            &&& polygon::x_term::<Fixed>()(r, s).raw == -polygon::y_term::<Fixed>()(p, q).raw
            &&& polygon::y_term::<Fixed>()(r, s).raw == -polygon::x_term::<Fixed>()(p, q).raw
            &&& polygon::xx_term::<Fixed>()(r, s).raw == -polygon::yy_term::<Fixed>()(p, q).raw
            &&& polygon::yy_term::<Fixed>()(r, s).raw == -polygon::xx_term::<Fixed>()(p, q).raw
        }),
{
    lemma_small_edge(p, q);
    lemma_spans(p, q);
    lemma_weights(p, q);
    let cross = p.outer(q);
    lemma_weighed(p.x.plus(q.x), cross);
    lemma_weighed(p.y.plus(q.y), cross);
    lemma_weighed(p.x.times(p.x).plus(p.x.times(q.x)).plus(q.x.times(q.x)), cross);
    lemma_weighed(p.y.times(p.y).plus(p.y.times(q.y)).plus(q.y.times(q.y)), cross);
}

/// Is the loop small enough for second moments?
pub open spec fn is_snug_loop(poly: Seq<Vector2<Fixed>>) -> bool {
    &&& poly.len() <= exact::ROOM_VERTICES
    &&& forall|i: int| 0 <= i < poly.len() ==> is_snug(#[trigger] poly[i])
}

/// Does exchanging the axes of a snug edge make of `term` the negation of `other`?
spec fn exchanges(
    term: spec_fn(Vector2<Fixed>, Vector2<Fixed>) -> Fixed,
    other: spec_fn(Vector2<Fixed>, Vector2<Fixed>) -> Fixed,
) -> bool {
    forall|p: Vector2<Fixed>, q: Vector2<Fixed>|
        #![trigger other(p, q)]
        is_snug(p) && is_snug(q) ==> is_modest_edge(other, p, q) && is_modest_edge(
            term,
            exchanged(p),
            exchanged(q),
        ) && term(exchanged(p), exchanged(q)).raw == -other(p, q).raw
}

proof fn lemma_exchanged_sum(
    poly: Seq<Vector2<Fixed>>,
    term: spec_fn(Vector2<Fixed>, Vector2<Fixed>) -> Fixed,
    other: spec_fn(Vector2<Fixed>, Vector2<Fixed>) -> Fixed,
)
    requires
        is_snug_loop(poly),
        exchanges(term, other),
    ensures
        polygon::loop_sum(exchanged_loop(poly), term) == polygon::loop_sum(poly, other),
{
    let n = poly.len();
    let turned = poly.map_values(|p: Vector2<Fixed>| exchanged(p));
    assert forall|i: int| 0 <= i < n implies #[trigger] is_modest_at(turned, term, i)
        && is_modest_at(poly, other, i) && edge_steps(turned, term)(i) == -edge_steps(poly, other)(
        i,
    ) by {
        polygon::lemma_next(i, n as int);
        let (p, q) = (poly[i], poly[(i + 1) % n as int]);
        assert(is_snug(p) && is_snug(q));
        let x = other(p, q).raw;
        assert((-x) as real == -(x as real));
    }
    assert forall|i: int| 0 <= i < n implies #[trigger] is_modest_at(poly, other, i) by {
        assert(is_modest_at(turned, term, i));
    }
    let (e, f) = (edge_steps(turned, term), edge_steps(poly, other));
    let g = |i: int| -1real * f(i);
    assert forall|i: int| 0 <= i < n implies #[trigger] e(i) == g(i) by {
        assert(is_modest_at(turned, term, i));
        let x = f(i);
        assert(-1real * x == -x) by (nonlinear_arith);
    }
    series::lemma_same(e, g, n);
    series::lemma_scaled(-1real, f, n);
    let x = series::sum(f, n);
    assert(-1real * x == -x) by (nonlinear_arith);
    lemma_loop_sum(turned, term);
    lemma_loop_sum(poly, other);
    lemma_reversed_sum(turned, term);
    let (a, b) = (polygon::loop_sum(turned, term).raw, polygon::loop_sum(poly, other).raw);
    assert(a as real == -(b as real));
    assert((-b) as real == -(b as real));
    lemma_same_steps(a, (-b) as i64);
}

/// In fixed point, exchanging the axes of a straight-edged profile exchanges the coordinates of its
/// centroid and its two second moments and keeps its area, all to the step.
pub proof fn law_exchanged_section(shape: ExtrudedProfile<Fixed>, other: ExtrudedProfile<Fixed>)
    requires
        is_snug_loop(shape.profile@),
        shape.arcs@.len() == 0,
        other.arcs@.len() == 0,
        other.profile@ == exchanged_loop(shape.profile@),
    ensures
        ({
            let (area, c, ixx, izz, ixz) = shape.section_spec();
            let (area2, c2, ixx2, izz2, ixz2) = other.section_spec();
            &&& area2 == area
            &&& c2 == exchanged(c)
            &&& ixx2 == izz && izz2 == ixx
        }),
{
    let poly = shape.profile@;
    lemma_exchanges();
    lemma_exchanged_sum(poly, polygon::area_term(), polygon::area_term());
    lemma_exchanged_sum(poly, polygon::x_term(), polygon::y_term());
    lemma_exchanged_sum(poly, polygon::y_term(), polygon::x_term());
    lemma_exchanged_sum(poly, polygon::xx_term(), polygon::yy_term());
    lemma_exchanged_sum(poly, polygon::yy_term(), polygon::xx_term());
    profile::lemma_exchanged_sums(shape, other);
}

proof fn lemma_exchanges()
    ensures
        exchanges(polygon::area_term(), polygon::area_term()),
        exchanges(polygon::x_term(), polygon::y_term()),
        exchanges(polygon::y_term(), polygon::x_term()),
        exchanges(polygon::xx_term(), polygon::yy_term()),
        exchanges(polygon::yy_term(), polygon::xx_term()),
{
    assert forall|p: Vector2<Fixed>, q: Vector2<Fixed>|
        #![trigger polygon::area_term::<Fixed>()(p, q)]
        is_snug(p) && is_snug(q) implies is_modest_edge(polygon::area_term(), p, q)
        && is_modest_edge(polygon::area_term(), exchanged(p), exchanged(q))
        && polygon::area_term::<Fixed>()(exchanged(p), exchanged(q)).raw == -polygon::area_term::<
        Fixed,
    >()(p, q).raw by {
        lemma_exchanged_edge(p, q);
        lemma_exchanged_edge(exchanged(p), exchanged(q));
    }
    assert forall|p: Vector2<Fixed>, q: Vector2<Fixed>|
        #![trigger polygon::y_term::<Fixed>()(p, q)]
        is_snug(p) && is_snug(q) implies is_modest_edge(polygon::y_term(), p, q) && is_modest_edge(
        polygon::x_term(),
        exchanged(p),
        exchanged(q),
    ) && polygon::x_term::<Fixed>()(exchanged(p), exchanged(q)).raw == -polygon::y_term::<Fixed>()(
        p,
        q,
    ).raw by {
        lemma_exchanged_edge(p, q);
        lemma_exchanged_edge(exchanged(p), exchanged(q));
    }
    assert forall|p: Vector2<Fixed>, q: Vector2<Fixed>|
        #![trigger polygon::x_term::<Fixed>()(p, q)]
        is_snug(p) && is_snug(q) implies is_modest_edge(polygon::x_term(), p, q) && is_modest_edge(
        polygon::y_term(),
        exchanged(p),
        exchanged(q),
    ) && polygon::y_term::<Fixed>()(exchanged(p), exchanged(q)).raw == -polygon::x_term::<Fixed>()(
        p,
        q,
    ).raw by {
        lemma_exchanged_edge(p, q);
        lemma_exchanged_edge(exchanged(p), exchanged(q));
    }
    assert forall|p: Vector2<Fixed>, q: Vector2<Fixed>|
        #![trigger polygon::yy_term::<Fixed>()(p, q)]
        is_snug(p) && is_snug(q) implies is_modest_edge(polygon::yy_term(), p, q) && is_modest_edge(
        polygon::xx_term(),
        exchanged(p),
        exchanged(q),
    ) && polygon::xx_term::<Fixed>()(exchanged(p), exchanged(q)).raw == -polygon::yy_term::<Fixed>()(
        p,
        q,
    ).raw by {
        lemma_exchanged_edge(p, q);
        lemma_exchanged_edge(exchanged(p), exchanged(q));
    }
    assert forall|p: Vector2<Fixed>, q: Vector2<Fixed>|
        #![trigger polygon::xx_term::<Fixed>()(p, q)]
        is_snug(p) && is_snug(q) implies is_modest_edge(polygon::xx_term(), p, q) && is_modest_edge(
        polygon::yy_term(),
        exchanged(p),
        exchanged(q),
    ) && polygon::yy_term::<Fixed>()(exchanged(p), exchanged(q)).raw == -polygon::xx_term::<Fixed>()(
        p,
        q,
    ).raw by {
        lemma_exchanged_edge(p, q);
        lemma_exchanged_edge(exchanged(p), exchanged(q));
    }
}

} // verus!
