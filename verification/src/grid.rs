//! Whole-number polygons that are moved by whole numbers, in fixed point.
use vstd::prelude::*;

use crate::accuracy;
use crate::fixed;
use crate::fixed::{Fixed, ONE};
use crate::ideal;
use crate::ideal::Ideal;
use crate::lattice;
use crate::lattice::Node;
use crate::moving;
use crate::polygon;
use crate::scalar::Scalar;
use crate::vector::Vector2;

verus! {

/// The nodes as real points.
spec fn real_places(nodes: Seq<Node>) -> Seq<Vector2<Ideal>> {
    nodes.map_values(
        |p: Node| Vector2 { x: ideal::number(p.x as real), y: ideal::number(p.y as real) },
    )
}

/// The nodes, each moved by `u` and `w`.
pub open spec fn moved(nodes: Seq<Node>, u: int, w: int) -> Seq<Node> {
    nodes.map_values(|p: Node| Node { x: p.x + u, y: p.y + w })
}

/// What an edge spans, in whole and in real numbers.
proof fn lemma_real_cross(p: Node, q: Node)
    ensures
        p.cross(q) as real == (p.x as real) * (q.y as real) - (q.x as real) * (p.y as real),
{
    accuracy::lemma_real_product(p.x, q.y);
    accuracy::lemma_real_product(q.x, p.y);
}

proof fn lemma_real_sums(nodes: Seq<Node>, n: nat)
    requires
        n <= nodes.len(),
    ensures
        ({
            let places = real_places(nodes);
            &&& polygon::edge_sum(places, polygon::area_term(), n) == ideal::number(
                lattice::whole_sum(nodes, lattice::area_term(), n) as real,
            )
            &&& polygon::edge_sum(places, polygon::x_term(), n) == ideal::number(
                lattice::whole_sum(nodes, lattice::x_term(), n) as real,
            )
            &&& polygon::edge_sum(places, polygon::y_term(), n) == ideal::number(
                lattice::whole_sum(nodes, lattice::y_term(), n) as real,
            )
        }),
    decreases n,
{
    if n > 0 {
        let i = n - 1;
        lemma_real_sums(nodes, i as nat);
        polygon::lemma_next(i, nodes.len() as int);
        let (p, q) = (nodes[i], nodes[(i + 1) % nodes.len() as int]);
        lemma_real_cross(p, q);
        accuracy::lemma_real_product(p.x + q.x, p.cross(q));
        accuracy::lemma_real_product(p.y + q.y, p.cross(q));
        assert((p.x + q.x) as real == p.x as real + q.x as real);
        assert((p.y + q.y) as real == p.y as real + q.y as real);
    } else {
        assert(0int as real == 0real);
        assert(0nat as real == 0real);
    }
}

/// What moving by whole numbers does to the sums: the area stays, and the first moments grow with
/// it.
proof fn lemma_moved_sums(nodes: Seq<Node>, u: int, w: int)
    requires
        lattice::whole_sum(nodes, lattice::area_term(), nodes.len()) != 0,
    ensures
        ({
            let other = moved(nodes, u, w);
            let n = nodes.len();
            let a = lattice::whole_sum(nodes, lattice::area_term(), n);
            &&& lattice::whole_sum(other, lattice::area_term(), n) == a
            &&& lattice::whole_sum(other, lattice::x_term(), n) == lattice::whole_sum(
                nodes,
                lattice::x_term(),
                n,
            ) + u * (3 * a)
            &&& lattice::whole_sum(other, lattice::y_term(), n) == lattice::whole_sum(
                nodes,
                lattice::y_term(),
                n,
            ) + w * (3 * a)
        }),
{
    let n = nodes.len();
    let other = moved(nodes, u, w);
    let t = Vector2::<Ideal> { x: ideal::number(u as real), y: ideal::number(w as real) };
    lemma_real_sums(nodes, n);
    lemma_real_sums(other, n);
    let places = real_places(nodes);
    assert(real_places(other) =~= moving::moved(places, t)) by {
        assert forall|i: int| 0 <= i < n implies real_places(other)[i] == moving::moved(
            places,
            t,
        )[i] by {
            let p = nodes[i];
            assert((p.x + u) as real == p.x as real + u as real);
            assert((p.y + w) as real == p.y as real + w as real);
        }
    }
    let (a, x, y) = (
        lattice::whole_sum(nodes, lattice::area_term(), n),
        lattice::whole_sum(nodes, lattice::x_term(), n),
        lattice::whole_sum(nodes, lattice::y_term(), n),
    );
    let (a2, x2, y2) = (
        lattice::whole_sum(other, lattice::area_term(), n),
        lattice::whole_sum(other, lattice::x_term(), n),
        lattice::whole_sum(other, lattice::y_term(), n),
    );
    assert(a as real != 0real) by {
        if a > 0 {
            assert(a as real >= 1real);
        } else {
            assert(a as real <= -1real);
        }
    }
    moving::law_moved_polygon(places, t);
    assert(a2 as real == a as real);
    assert(a2 == a) by {
        lemma_same_whole(a2, a);
    }
    let d = 3real * (a as real);
    assert(Ideal::of_count(3).v == 3real);
    lemma_back(x2 as real, x as real, u as real, d);
    lemma_back(y2 as real, y as real, w as real, d);
    accuracy::lemma_real_product(u, 3 * a);
    accuracy::lemma_real_product(w, 3 * a);
    assert((3 * a) as real == d);
    assert((x + u * (3 * a)) as real == x as real + (u * (3 * a)) as real);
    assert((y + w * (3 * a)) as real == y as real + (w * (3 * a)) as real);
    lemma_same_whole(x2, x + u * (3 * a));
    lemma_same_whole(y2, y + w * (3 * a));
}

proof fn lemma_same_whole(a: int, b: int)
    requires
        a as real == b as real,
    ensures
        a == b,
{
    if a < b {
        assert((a as real) < (b as real));
    } else if b < a {
        assert((b as real) < (a as real));
    }
}

proof fn lemma_back(p: real, q: real, u: real, d: real)
    requires
        d != 0real,
        p / d == q / d + u,
    ensures
        p == q + u * d,
{
    let (s, t) = (p / d, q / d);
    assert(s * d == p && t * d == q) by (nonlinear_arith)
        requires
            s == p / d,
            t == q / d,
            d != 0real,
    ;
    ideal::lemma_dist(d, t, u);
}

/// Rounding towards zero commutes with whole steps but for one.
proof fn lemma_shifted_quotient(n: int, d: int, k: int)
    requires
        d != 0,
    ensures
        -1 <= fixed::quotient(n + k * d, d) - (fixed::quotient(n, d) + k) <= 1,
{
    lemma_quotient_near(n, d);
    lemma_quotient_near(n + k * d, d);
    let size = fixed::magnitude_of(d);
    let (p, q) = (fixed::quotient(n + k * d, d), fixed::quotient(n, d));
    let e = p - (q + k);
    assert((p * d - (n + k * d)) - (q * d - n) == e * d) by (nonlinear_arith)
        requires
            e == p - (q + k),
    ;
    assert(-2 < e < 2) by (nonlinear_arith)
        requires
            -(2 * size) < e * d < 2 * size,
            size == d || size == -d,
            size > 0,
    ;
}

proof fn lemma_quotient_near(n: int, d: int)
    requires
        d != 0,
    ensures
        -fixed::magnitude_of(d) < fixed::quotient(n, d) * d - n < fixed::magnitude_of(d),
{
    let (m, s) = (fixed::magnitude_of(n), fixed::magnitude_of(d));
    let k = m / s;
    assert(0 <= m - k * s < s) by (nonlinear_arith)
        requires
            k == m / s,
            s > 0,
    ;
    assert((-k) * d == -(k * d) && k * (-d) == -(k * d) && (-k) * (-d) == k * d) by (nonlinear_arith);
}

/// A whole number over three times another, moved by whole ones.
proof fn lemma_moved_third(x: int, y: int, a: int, u: int)
    requires
        lattice::fits(x),
        lattice::fits(y),
        -0x4_0000 <= a <= 0x4_0000,
        a != 0,
        y == x + u * (3 * a),
    ensures
        ({
            let d = Fixed::of_count(3).times(lattice::whole(a));
            let (p, q) = (lattice::whole(x).over(d), lattice::whole(y).over(d));
            -1 <= q.raw - (p.raw + u * ONE) <= 1
        }),
{
    assert(Fixed::of_count(3) == lattice::whole(3));
    lattice::lemma_whole_times(3, a);
    let d = lattice::whole(3 * a);
    let c = (3 * a) * ONE;
    assert(d.raw == c);
    let (p, q) = (lattice::whole(x), lattice::whole(y));
    assert(p.raw == x * ONE && q.raw == y * ONE);
    let (m, n) = ((x * ONE) * ONE, (y * ONE) * ONE);
    assert(n == m + (u * ONE) * c) by (nonlinear_arith)
        requires
            y == x + u * (3 * a),
            n == (y * ONE) * ONE,
            m == (x * ONE) * ONE,
            c == (3 * a) * ONE,
    ;
    lemma_shifted_quotient(m, c, u * ONE);
    lemma_third_fits(x, c);
    lemma_third_fits(y, c);
}

proof fn lemma_third_fits(x: int, c: int)
    requires
        lattice::fits(x),
        c <= -(3 * ONE) || 3 * ONE <= c,
    ensures
        i64::MIN < fixed::quotient((x * ONE) * ONE, c) < i64::MAX,
{
    let (m, s) = (fixed::magnitude_of((x * ONE) * ONE), fixed::magnitude_of(c));
    let k = m / s;
    assert(0 <= m <= 0x8000_0000 * ONE * ONE);
    assert(0 <= k <= 0x4000_0000 * ONE) by (nonlinear_arith)
        requires
            k == m / s,
            0 <= m <= 0x8000_0000 * ONE * ONE,
            s >= 3 * ONE,
            ONE == 4_294_967_296,
    ;
}

/// In fixed point, moving a polygon of whole numbers by whole numbers leaves its area exactly as it
/// is, and moves its centroid along but for a step.
pub proof fn law_moved_whole_polygon(nodes: Seq<Node>, u: int, w: int)
    requires
        lattice::has_room(nodes),
        lattice::has_room(moved(nodes, u, w)),
        lattice::whole_sum(nodes, lattice::area_term(), nodes.len()) != 0,
    ensures
        ({
            let (poly, other) = (lattice::places(nodes), lattice::places(moved(nodes, u, w)));
            let (c, d) = (polygon::raw_centroid(poly), polygon::raw_centroid(other));
            &&& polygon::area_of(other) == polygon::area_of(poly)
            &&& -1 <= d.x.raw - (c.x.raw + u * ONE) <= 1
            &&& -1 <= d.y.raw - (c.y.raw + w * ONE) <= 1
        }),
{
    let other = moved(nodes, u, w);
    let n = nodes.len();
    lattice::law_whole_sums_are_exact(nodes);
    lattice::law_whole_sums_are_exact(other);
    lemma_moved_sums(nodes, u, w);
    let a = lattice::whole_sum(nodes, lattice::area_term(), n);
    lemma_moved_third(
        lattice::whole_sum(nodes, lattice::x_term(), n),
        lattice::whole_sum(other, lattice::x_term(), n),
        a,
        u,
    );
    lemma_moved_third(
        lattice::whole_sum(nodes, lattice::y_term(), n),
        lattice::whole_sum(other, lattice::y_term(), n),
        a,
        w,
    );
}

} // verus!
