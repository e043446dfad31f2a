//! Profiles with whole coordinates, whose sums fixed point adds up without any rounding.
use vstd::prelude::*;

use crate::exact;
use crate::fixed;
use crate::fixed::Fixed;
use crate::fixed::ONE;
use crate::polygon;
use crate::profile::ExtrudedProfile;
use crate::scalar::{Lawful, Scalar};
use crate::vector::{Vector, Vector2};

verus! {

/// Coordinates up to this one leave room for the sums of a section.
pub const LATTICE_ROOM: i64 = 32;

/// So many vertices leave room for the sums of a section.
pub const LATTICE_VERTICES: usize = 128;

/// A point with whole coordinates.
pub struct Node {
    pub x: int,
    pub y: int,
}

/// The whole number `n` as a scalar.
pub open spec fn whole(n: int) -> Fixed {
    fixed::pinned(n * ONE)
}

impl Node {
    /// The point of the profile plane.
    pub open spec fn place(self) -> Vector2<Fixed> {
        Vector2 { x: whole(self.x), y: whole(self.y) }
    }

    /// Are the coordinates small enough for the sums of a section?
    pub open spec fn is_near(self) -> bool {
        -LATTICE_ROOM <= self.x <= LATTICE_ROOM && -LATTICE_ROOM <= self.y <= LATTICE_ROOM
    }

    /// Twice the area that the edge to `q` spans with the origin.
    pub open spec fn cross(self, q: Node) -> int {
        self.x * q.y - q.x * self.y
    }
}

/// Does the scalar hold the whole number without being pinned?
pub open spec fn fits(n: int) -> bool {
    -0x8000_0000 < n < 0x8000_0000
}

/// Are the coordinates of all `nodes` small enough, and the nodes few enough, for the sums of a
/// section?
pub open spec fn has_room(nodes: Seq<Node>) -> bool {
    &&& nodes.len() <= LATTICE_VERTICES
    &&& forall|i: int| 0 <= i < nodes.len() ==> (#[trigger] nodes[i]).is_near()
}

/// The loop through `nodes`, as points of the profile plane.
pub open spec fn places(nodes: Seq<Node>) -> Seq<Vector2<Fixed>> {
    nodes.map_values(|p: Node| p.place())
}

/// The sum of `term` over the first `count` edges of the loop through `nodes`.
pub open spec fn whole_sum(
    nodes: Seq<Node>,
    term: spec_fn(Node, Node) -> int,
    count: nat,
) -> int
    decreases count,
{
    if count == 0 {
        0
    } else {
        let i = count - 1;
        whole_sum(nodes, term, i as nat) + term(nodes[i], nodes[(i + 1) % nodes.len() as int])
    }
}

/// Of an edge, twice the area that it spans with the origin.
pub open spec fn area_term() -> spec_fn(Node, Node) -> int {
    |p: Node, q: Node| p.cross(q)
}

/// Of an edge, six times the integral of x.
pub open spec fn x_term() -> spec_fn(Node, Node) -> int {
    |p: Node, q: Node| (p.x + q.x) * p.cross(q)
}

/// Of an edge, six times the integral of y.
pub open spec fn y_term() -> spec_fn(Node, Node) -> int {
    |p: Node, q: Node| (p.y + q.y) * p.cross(q)
}

/// Of an edge, twelve times the integral of the squared x.
pub open spec fn xx_term() -> spec_fn(Node, Node) -> int {
    |p: Node, q: Node| (p.x * p.x + p.x * q.x + q.x * q.x) * p.cross(q)
}

/// Of an edge, twelve times the integral of the squared y.
pub open spec fn yy_term() -> spec_fn(Node, Node) -> int {
    |p: Node, q: Node| (p.y * p.y + p.y * q.y + q.y * q.y) * p.cross(q)
}

/// Of an edge, twenty-four times the integral of x times y.
pub open spec fn xy_term() -> spec_fn(Node, Node) -> int {
    |p: Node, q: Node|
        (p.x * q.y + 2 * p.x * p.y + 2 * q.x * q.y + q.x * p.y) * p.cross(q)
}

/// Whole numbers multiply without rounding.
pub proof fn lemma_whole_times(m: int, n: int)
    requires
        fits(m),
        fits(n),
        fits(m * n),
    ensures
        whole(m).times(whole(n)) == whole(m * n),
{
    let product = (m * ONE) * (n * ONE);
    assert(product == ((m * n) * ONE) * ONE) by (nonlinear_arith)
        requires
            product == (m * ONE) * (n * ONE),
    ;
    let result = (m * n) * ONE;
    assert((result * ONE) / (ONE as int) == result);
    assert((-result * ONE) / (ONE as int) == -result);
    assert(whole(m).raw == m * ONE);
    assert(whole(n).raw == n * ONE);
}

/// Whole numbers add without rounding.
proof fn lemma_whole_plus(m: int, n: int)
    requires
        fits(m),
        fits(n),
        fits(m + n),
        fits(m - n),
    ensures
        whole(m).plus(whole(n)) == whole(m + n),
        whole(m).minus(whole(n)) == whole(m - n),
{
    assert((m + n) * ONE == m * ONE + n * ONE);
    assert((m - n) * ONE == m * ONE - n * ONE);
}

/// What an edge spans with the origin is exact.
proof fn lemma_cross(p: Node, q: Node)
    requires
        p.is_near(),
        q.is_near(),
    ensures
        p.place().outer(q.place()) == whole(p.cross(q)),
        -2048 <= p.cross(q) <= 2048,
{
    exact::lemma_product(p.x, q.y, 32, 32);
    exact::lemma_product(q.x, p.y, 32, 32);
    lemma_whole_times(p.x, q.y);
    lemma_whole_times(q.x, p.y);
    lemma_whole_plus(p.x * q.y, q.x * p.y);
}

/// The weight of an edge in a first moment is exact, and small.
proof fn lemma_first(a: int, b: int, cross: int)
    requires
        -32 <= a <= 32,
        -32 <= b <= 32,
        -2048 <= cross <= 2048,
    ensures
        whole(a).plus(whole(b)).times(whole(cross)) == whole((a + b) * cross),
        -0x60_0000 <= (a + b) * cross <= 0x60_0000,
{
    lemma_whole_plus(a, b);
    exact::lemma_product(a + b, cross, 64, 2048);
    lemma_whole_times(a + b, cross);
}

/// The weight of an edge in a second moment is exact, and small.
proof fn lemma_second(a: int, b: int, cross: int)
    requires
        -32 <= a <= 32,
        -32 <= b <= 32,
        -2048 <= cross <= 2048,
    ensures
        whole(a).times(whole(a)).plus(whole(a).times(whole(b))).plus(
            whole(b).times(whole(b)),
        ).times(whole(cross)) == whole((a * a + a * b + b * b) * cross),
        -0x60_0000 <= (a * a + a * b + b * b) * cross <= 0x60_0000,
{
    exact::lemma_product(a, a, 32, 32);
    exact::lemma_product(a, b, 32, 32);
    exact::lemma_product(b, b, 32, 32);
    lemma_whole_times(a, a);
    lemma_whole_times(a, b);
    lemma_whole_times(b, b);
    lemma_whole_plus(a * a, a * b);
    lemma_whole_plus(a * a + a * b, b * b);
    exact::lemma_product(a * a + a * b + b * b, cross, 3072, 2048);
    lemma_whole_times(a * a + a * b + b * b, cross);
}

/// The weight of an edge in the mixed moment is exact, and small.
proof fn lemma_mixed(p: Node, q: Node)
    requires
        p.is_near(),
        q.is_near(),
    ensures
        polygon::xy_term()(p.place(), q.place()) == whole(xy_term()(p, q)),
        -0xC0_0000 <= xy_term()(p, q) <= 0xC0_0000,
{
    lemma_cross(p, q);
    let (a, b) = (2 * p.x, 2 * q.x);
    assert(Fixed::of_count(2) == whole(2));
    lemma_whole_times(2, p.x);
    lemma_whole_times(2, q.x);
    exact::lemma_product(p.x, q.y, 32, 32);
    exact::lemma_product(q.x, p.y, 32, 32);
    exact::lemma_product(a, p.y, 64, 32);
    exact::lemma_product(b, q.y, 64, 32);
    lemma_whole_times(p.x, q.y);
    lemma_whole_times(a, p.y);
    lemma_whole_times(b, q.y);
    lemma_whole_times(q.x, p.y);
    lemma_whole_plus(p.x * q.y, a * p.y);
    lemma_whole_plus(p.x * q.y + a * p.y, b * q.y);
    lemma_whole_plus(p.x * q.y + a * p.y + b * q.y, q.x * p.y);
    let weight = p.x * q.y + a * p.y + b * q.y + q.x * p.y;
    exact::lemma_product(weight, p.cross(q), 6144, 2048);
    lemma_whole_times(weight, p.cross(q));
}

/// Is the term of an edge between places the whole number that its nodes give, and small?
spec fn is_mirrored(
    term: spec_fn(Vector2<Fixed>, Vector2<Fixed>) -> Fixed,
    count: spec_fn(Node, Node) -> int,
    bound: int,
) -> bool {
    forall|p: Node, q: Node|
        p.is_near() && q.is_near() ==> term(p.place(), q.place()) == whole(#[trigger] count(p, q))
            && -bound <= count(p, q) <= bound
}

proof fn lemma_sum(
    nodes: Seq<Node>,
    term: spec_fn(Vector2<Fixed>, Vector2<Fixed>) -> Fixed,
    count: spec_fn(Node, Node) -> int,
    bound: int,
    n: nat,
)
    requires
        is_mirrored(term, count, bound),
        0 <= bound <= 0xC0_0000,
        has_room(nodes),
        n <= nodes.len(),
    ensures
        polygon::edge_sum(places(nodes), term, n) == whole(whole_sum(nodes, count, n)),
        -(n * bound) <= whole_sum(nodes, count, n) <= n * bound,
        fits(whole_sum(nodes, count, n)),
    decreases n,
{
    if n > 0 {
        let i = n - 1;
        lemma_sum(nodes, term, count, bound, i as nat);
        polygon::lemma_next(i, nodes.len() as int);
        let p = nodes[i];
        let q = nodes[(i + 1) % nodes.len() as int];
        assert(p.is_near() && q.is_near());
        assert(term(p.place(), q.place()) == whole(count(p, q)));
        assert(n * bound == i * bound + bound) by (nonlinear_arith)
            requires
                i == n - 1,
        ;
        assert(n * bound <= 128 * 0xC0_0000) by (nonlinear_arith)
            requires
                n <= 128,
                0 <= bound <= 0xC0_0000,
        ;
        lemma_whole_plus(whole_sum(nodes, count, i as nat), count(p, q));
    }
}

/// On a loop of whole coordinates, each of the sums by which a section is measured is exactly the
/// whole number that it stands for.
pub proof fn law_whole_sums_are_exact(nodes: Seq<Node>)
    requires
        has_room(nodes),
    ensures
        polygon::loop_sum(places(nodes), polygon::area_term()) == whole(
            whole_sum(nodes, area_term(), nodes.len()),
        ),
        polygon::loop_sum(places(nodes), polygon::x_term()) == whole(
            whole_sum(nodes, x_term(), nodes.len()),
        ),
        polygon::loop_sum(places(nodes), polygon::y_term()) == whole(
            whole_sum(nodes, y_term(), nodes.len()),
        ),
        polygon::loop_sum(places(nodes), polygon::xx_term()) == whole(
            whole_sum(nodes, xx_term(), nodes.len()),
        ),
        polygon::loop_sum(places(nodes), polygon::yy_term()) == whole(
            whole_sum(nodes, yy_term(), nodes.len()),
        ),
        polygon::loop_sum(places(nodes), polygon::xy_term()) == whole(
            whole_sum(nodes, xy_term(), nodes.len()),
        ),
        -0x4_0000 <= whole_sum(nodes, area_term(), nodes.len()) <= 0x4_0000,
        fits(whole_sum(nodes, x_term(), nodes.len())),
        fits(whole_sum(nodes, y_term(), nodes.len())),
        fits(whole_sum(nodes, xx_term(), nodes.len())),
        fits(whole_sum(nodes, yy_term(), nodes.len())),
        fits(whole_sum(nodes, xy_term(), nodes.len())),
{
    let n = nodes.len();
    assert(is_mirrored(polygon::area_term(), area_term(), 2048)) by {
        assert forall|p: Node, q: Node| p.is_near() && q.is_near() implies
            polygon::area_term()(p.place(), q.place()) == whole(#[trigger] area_term()(p, q))
            && -2048 <= area_term()(p, q) <= 2048 by {
            lemma_cross(p, q);
        }
    }
    assert(is_mirrored(polygon::x_term(), x_term(), 0xC0_0000)) by {
        assert forall|p: Node, q: Node| p.is_near() && q.is_near() implies
            polygon::x_term()(p.place(), q.place()) == whole(#[trigger] x_term()(p, q))
            && -0xC0_0000 <= x_term()(p, q) <= 0xC0_0000 by {
            lemma_cross(p, q);
            lemma_first(p.x, q.x, p.cross(q));
        }
    }
    assert(is_mirrored(polygon::y_term(), y_term(), 0xC0_0000)) by {
        assert forall|p: Node, q: Node| p.is_near() && q.is_near() implies
            polygon::y_term()(p.place(), q.place()) == whole(#[trigger] y_term()(p, q))
            && -0xC0_0000 <= y_term()(p, q) <= 0xC0_0000 by {
            lemma_cross(p, q);
            lemma_first(p.y, q.y, p.cross(q));
        }
    }
    assert(is_mirrored(polygon::xx_term(), xx_term(), 0xC0_0000)) by {
        assert forall|p: Node, q: Node| p.is_near() && q.is_near() implies
            polygon::xx_term()(p.place(), q.place()) == whole(#[trigger] xx_term()(p, q))
            && -0xC0_0000 <= xx_term()(p, q) <= 0xC0_0000 by {
            lemma_cross(p, q);
            lemma_second(p.x, q.x, p.cross(q));
        }
    }
    assert(is_mirrored(polygon::yy_term(), yy_term(), 0xC0_0000)) by {
        assert forall|p: Node, q: Node| p.is_near() && q.is_near() implies
            polygon::yy_term()(p.place(), q.place()) == whole(#[trigger] yy_term()(p, q))
            && -0xC0_0000 <= yy_term()(p, q) <= 0xC0_0000 by {
            lemma_cross(p, q);
            lemma_second(p.y, q.y, p.cross(q));
        }
    }
    assert(is_mirrored(polygon::xy_term(), xy_term(), 0xC0_0000)) by {
        assert forall|p: Node, q: Node| p.is_near() && q.is_near() implies
            polygon::xy_term()(p.place(), q.place()) == whole(#[trigger] xy_term()(p, q))
            && -0xC0_0000 <= xy_term()(p, q) <= 0xC0_0000 by {
            lemma_mixed(p, q);
        }
    }
    lemma_sum(nodes, polygon::area_term(), area_term(), 2048, n);
    lemma_sum(nodes, polygon::x_term(), x_term(), 0xC0_0000, n);
    lemma_sum(nodes, polygon::y_term(), y_term(), 0xC0_0000, n);
    lemma_sum(nodes, polygon::xx_term(), xx_term(), 0xC0_0000, n);
    lemma_sum(nodes, polygon::yy_term(), yy_term(), 0xC0_0000, n);
    lemma_sum(nodes, polygon::xy_term(), xy_term(), 0xC0_0000, n);
}

/// Half of a whole number is exact.
proof fn lemma_half_of_whole(n: int)
    requires
        fits(n),
    ensures
        2 * whole(n).times(polygon::half_value()).raw == n * ONE,
{
    exact::lemma_half_raw();
    let half = polygon::half_value::<Fixed>();
    let product = (n * ONE) * half.raw;
    assert(product == (n * 0x8000_0000) * ONE) by (nonlinear_arith)
        requires
            product == (n * ONE) * half.raw,
            half.raw == 0x8000_0000,
    ;
    let result = n * 0x8000_0000;
    assert(whole(n).raw == n * ONE);
    assert((result * ONE) / (ONE as int) == result);
    assert((-result * ONE) / (ONE as int) == -result);
}

/// A scalar over itself is one.
proof fn lemma_over_itself(x: Fixed)
    requires
        x.raw != 0,
    ensures
        x.over(x) == Fixed::of_count(1),
{
    let size = fixed::magnitude_of(x.raw as int);
    let top = fixed::magnitude_of(x.raw * ONE);
    assert(top == size * ONE);
    assert((size * ONE) / size == ONE) by (nonlinear_arith)
        requires
            size > 0,
    ;
}

/// A loop of whole coordinates with its centroid at the origin has the exact area, and second
/// moments that are exact but for the one division.
pub proof fn law_whole_section(shape: ExtrudedProfile<Fixed>, nodes: Seq<Node>)
    requires
        shape.arcs@.len() == 0,
        shape.profile@ == places(nodes),
        has_room(nodes),
        nodes.len() >= 3,
        whole_sum(nodes, area_term(), nodes.len()) != 0,
        whole_sum(nodes, x_term(), nodes.len()) == 0,
        whole_sum(nodes, y_term(), nodes.len()) == 0,
    ensures
        2 * shape.section_spec().0.raw == whole_sum(nodes, area_term(), nodes.len()) * ONE,
        shape.section_spec().1 == Vector2::<Fixed>::origin(),
        shape.section_spec().2 == whole(whole_sum(nodes, xx_term(), nodes.len())).over(whole(12)),
        shape.section_spec().3 == whole(whole_sum(nodes, yy_term(), nodes.len())).over(whole(12)),
        shape.section_spec().4 == whole(whole_sum(nodes, xy_term(), nodes.len())).over(whole(24)),
{
    let n = nodes.len();
    let zero = Fixed { raw: 0 };
    let double = whole_sum(nodes, area_term(), n);
    law_whole_sums_are_exact(nodes);
    lemma_half_of_whole(double);
    assert(double * ONE != 0);
    let area = whole(double).times(polygon::half_value());
    assert(area.raw != 0);
    assert(whole(0) == zero && Fixed::of_count(0) == zero);
    let divisor = Fixed::of_count(3).times(whole(double));
    exact::lemma_zero_over(divisor);
    assert(shape.exact_area() == area);
    assert(shape.exact_centroid() == Vector2::<Fixed>::origin());
    assert(shape.sampled_area() == area);
    lemma_over_itself(area);
    exact::lemma_times_zero(area);
    exact::lemma_times_zero(zero);
    assert(Fixed::of_count(12) == whole(12) && Fixed::of_count(24) == whole(24));
    Fixed::law_neutral(whole(whole_sum(nodes, xx_term(), n)).over(whole(12)));
    Fixed::law_neutral(whole(whole_sum(nodes, yy_term(), n)).over(whole(12)));
    Fixed::law_neutral(whole(whole_sum(nodes, xy_term(), n)).over(whole(24)));
}

/// The corners of a rectangle about the origin, counter-clockwise.
pub open spec fn rectangle(a: int, b: int) -> Seq<Node> {
    seq![
        Node { x: -a, y: -b },
        Node { x: a, y: -b },
        Node { x: a, y: b },
        Node { x: -a, y: b },
    ]
}

proof fn lemma_four_edges(nodes: Seq<Node>, term: spec_fn(Node, Node) -> int)
    requires
        nodes.len() == 4,
    ensures
        whole_sum(nodes, term, 4) == term(nodes[0], nodes[1]) + term(nodes[1], nodes[2]) + term(
            nodes[2],
            nodes[3],
        ) + term(nodes[3], nodes[0]),
{
    reveal_with_fuel(whole_sum, 5);
    polygon::lemma_next(0, 4);
    polygon::lemma_next(1, 4);
    polygon::lemma_next(2, 4);
    polygon::lemma_next(3, 4);
}

/// Is the solid of half extents `a`, `d` and `b` and density `r` small enough for its inertia?
pub open spec fn is_cuboid(a: int, b: int, d: int, r: int) -> bool {
    &&& 1 <= a <= LATTICE_ROOM
    &&& 1 <= b <= LATTICE_ROOM
    &&& 1 <= d
    &&& 1 <= r
    &&& fits(32 * ((r * ((a * b) * d)) * (a * a + b * b + d * d)))
}

/// What a rectangle of half extents `a` and `b` sums up to.
proof fn lemma_rectangle_sums(a: int, b: int)
    ensures
        whole_sum(rectangle(a, b), area_term(), 4) == 8 * (a * b),
        whole_sum(rectangle(a, b), x_term(), 4) == 0,
        whole_sum(rectangle(a, b), y_term(), 4) == 0,
        whole_sum(rectangle(a, b), xx_term(), 4) == 16 * ((a * b) * (a * a)),
        whole_sum(rectangle(a, b), yy_term(), 4) == 16 * ((a * b) * (b * b)),
        whole_sum(rectangle(a, b), xy_term(), 4) == 0,
{
    let nodes = rectangle(a, b);
    let (p0, p1, p2, p3) = (nodes[0], nodes[1], nodes[2], nodes[3]);
    lemma_four_edges(nodes, area_term());
    lemma_four_edges(nodes, x_term());
    lemma_four_edges(nodes, y_term());
    lemma_four_edges(nodes, xx_term());
    lemma_four_edges(nodes, yy_term());
    lemma_four_edges(nodes, xy_term());
    exact::lemma_signs(a, b);
    exact::lemma_signs(b, a);
    exact::lemma_signs(a, a);
    exact::lemma_signs(b, b);
    assert(a * b == b * a) by (nonlinear_arith);
    let cross = 2 * (a * b);
    assert(p0.cross(p1) == cross && p1.cross(p2) == cross && p2.cross(p3) == cross && p3.cross(p0)
        == cross);
    let s = a * a;
    let t = b * b;
    assert(s * cross + (3 * s) * cross + s * cross + (3 * s) * cross == 16 * ((a * b) * s))
        by (nonlinear_arith)
        requires
            cross == 2 * (a * b),
    ;
    assert((3 * t) * cross + t * cross + (3 * t) * cross + t * cross == 16 * ((a * b) * t))
        by (nonlinear_arith)
        requires
            cross == 2 * (a * b),
    ;
    assert((2 * a) * cross + (-2 * a) * cross == 0) by (nonlinear_arith);
    assert((2 * b) * cross + (-2 * b) * cross == 0) by (nonlinear_arith);
    assert(0 * cross == 0) by (nonlinear_arith);
    assert(xx_term()(p0, p1) == s * cross);
    assert(xx_term()(p1, p2) == (3 * s) * cross);
    assert(xx_term()(p2, p3) == s * cross);
    assert(xx_term()(p3, p0) == (3 * s) * cross);
    assert(yy_term()(p0, p1) == (3 * t) * cross);
    assert(yy_term()(p1, p2) == t * cross);
    assert(yy_term()(p2, p3) == (3 * t) * cross);
    assert(yy_term()(p3, p0) == t * cross);
    assert(x_term()(p0, p1) == 0 && x_term()(p2, p3) == 0);
    assert(y_term()(p1, p2) == 0 && y_term()(p3, p0) == 0);
    assert(x_term()(p1, p2) == (2 * a) * cross && x_term()(p3, p0) == (-2 * a) * cross);
    assert(y_term()(p0, p1) == (-2 * b) * cross && y_term()(p2, p3) == (2 * b) * cross);
    lemma_doubles(a, b);
    lemma_doubles(-a, b);
    lemma_doubles(a, -b);
    lemma_doubles(-a, -b);
    assert(xy_term()(p0, p1) == 0 && xy_term()(p1, p2) == 0 && xy_term()(p2, p3) == 0 && xy_term()(
        p3,
        p0,
    ) == 0);
}

proof fn lemma_doubles(a: int, b: int)
    by (nonlinear_arith)
    ensures
        2 * a * b == 2 * (a * b),
{
}

/// A whole number times any scalar is exact.
proof fn lemma_whole_scales(n: int, x: Fixed)
    requires
        0 <= n,
        fits(n),
        0 <= x.raw,
        n * x.raw <= i64::MAX,
    ensures
        whole(n).times(x).raw == n * x.raw,
        x.times(whole(n)).raw == n * x.raw,
{
    let result = n * x.raw;
    assert(result >= 0) by (nonlinear_arith)
        requires
            result == n * x.raw,
            0 <= n,
            0 <= x.raw,
    ;
    let raw = x.raw as int;
    assert((n * ONE) * raw == result * ONE && raw * (n * ONE) == result * ONE) by (nonlinear_arith)
        requires
            result == n * raw,
    ;
    assert(whole(n).raw == n * ONE);
    assert((result * ONE) / (ONE as int) == result);
}

/// A whole number over twelve is rounded down to a step.
proof fn lemma_over_twelve(n: int)
    requires
        0 <= n,
        fits(n),
    ensures
        0 <= n * ONE - 12 * whole(n).over(whole(12)).raw < 12,
        0 <= whole(n).over(whole(12)).raw,
{
    let top = (n * ONE) * ONE;
    let bottom = 12 * ONE;
    assert(whole(n).raw == n * ONE && whole(12).raw == bottom);
    assert(top / bottom == (n * ONE) / 12) by (nonlinear_arith)
        requires
            top == (n * ONE) * ONE,
            bottom == 12 * ONE,
            ONE == 0x1_0000_0000,
            n >= 0,
    ;
}

/// Of positive whole numbers, a product is at least each of the two.
proof fn lemma_grows(m: int, n: int)
    by (nonlinear_arith)
    requires
        1 <= m,
        1 <= n,
    ensures
        m <= m * n,
        n <= m * n,
{
}

proof fn lemma_monotone(m: int, n: int, u: int, v: int)
    by (nonlinear_arith)
    requires
        0 <= m <= u,
        0 <= n <= v,
    ensures
        m * n <= u * v,
{
}

/// How an axis of inertia comes about: a slab and a moment, each rounded down to a step, times the
/// depth and the density.
proof fn lemma_axis(r: int, d: int, slab: int, moment: int, full_slab: int, full_moment: int)
    requires
        1 <= r,
        1 <= d,
        0 <= full_slab - 12 * slab < 12,
        0 <= full_moment - 12 * moment < 12,
    ensures
        0 <= r * (full_slab + 2 * d * full_moment) - 12 * (r * (slab + 2 * d * moment)) < 12 * (r * (1
            + 2 * d)),
{
    let x = full_slab - 12 * slab;
    let y = full_moment - 12 * moment;
    assert(0 <= 2 * d * y <= 2 * d * 11) by (nonlinear_arith)
        requires
            0 <= y <= 11,
            1 <= d,
    ;
    assert(2 * d * full_moment == 12 * (2 * d * moment) + 2 * d * y) by (nonlinear_arith)
        requires
            full_moment == 12 * moment + y,
    ;
    let z = x + 2 * d * y;
    assert(0 <= r * z && r * z < r * (12 * (1 + 2 * d))) by (nonlinear_arith)
        requires
            1 <= r,
            0 <= z < 12 * (1 + 2 * d),
    ;
    assert(r * (12 * (slab + 2 * d * moment) + z) == 12 * (r * (slab + 2 * d * moment)) + r * z)
        by (nonlinear_arith);
    assert(r * (12 * (1 + 2 * d)) == 12 * (r * (1 + 2 * d))) by (nonlinear_arith);
}

/// The products that the mass of a cuboid goes through all fit.
proof fn lemma_cuboid_fits(a: int, b: int, d: int, r: int)
    requires
        is_cuboid(a, b, d, r),
    ensures
        ({
            let c = a * b;
            let e = c * d;
            let k = r * e;
            let most = k * (a * a + b * b + d * d);
            &&& 1 <= c && 1 <= e && 1 <= k
            &&& c <= most && d <= most && r <= most && e <= most && k <= most
            &&& r * c <= most && r * d <= most && e * d <= most
            &&& 0 <= k * (b * b) && 0 <= k * (a * a)
            &&& k * (d * d) + k * (b * b) + k * (a * a) == most
            &&& e * (d * d) <= k * (d * d)
            &&& e * (d * d) <= most
        }),
{
    let c = a * b;
    let e = c * d;
    let k = r * e;
    let s = a * a + b * b + d * d;
    lemma_grows(a, b);
    lemma_grows(c, d);
    lemma_grows(r, e);
    lemma_grows(a, a);
    lemma_grows(b, b);
    lemma_grows(d, d);
    lemma_grows(k, s);
    lemma_monotone(r, c, r, e);
    lemma_monotone(r, d, r, e);
    lemma_monotone(e, d, k, d * d);
    lemma_monotone(e, d * d, k, d * d);
    lemma_monotone(0, b * b, k, b * b);
    lemma_monotone(0, a * a, k, a * a);
    assert(k * s == k * (d * d) + k * (b * b) + k * (a * a)) by (nonlinear_arith)
        requires
            s == a * a + b * b + d * d,
    ;
    assert(0 <= k * (b * b) && 0 <= k * (a * a) && 0 <= k * (d * d)) by (nonlinear_arith)
        requires
            k >= 1,
    ;
}

/// The slab term of a cuboid, before the division: the section times the depth cubed.
proof fn lemma_slab(c: int, d: int)
    requires
        1 <= c,
        1 <= d,
        fits(32 * ((c * d) * (d * d))),
    ensures
        whole(4 * c).times(whole(2 * d)).times(whole(2 * d)).times(whole(2 * d)) == whole(
            32 * ((c * d) * (d * d)),
        ),
{
    let e = c * d;
    lemma_grows(c, d);
    lemma_grows(d, d);
    lemma_grows(e, d);
    lemma_grows(e, d * d);
    lemma_monotone(e, d, e, d * d);
    assert((4 * c) * (2 * d) == 8 * e) by (nonlinear_arith)
        requires
            e == c * d,
    ;
    assert((8 * e) * (2 * d) == 16 * (e * d)) by (nonlinear_arith);
    assert((16 * (e * d)) * (2 * d) == 32 * (e * (d * d))) by (nonlinear_arith);
    lemma_whole_times(4 * c, 2 * d);
    lemma_whole_times(8 * e, 2 * d);
    lemma_whole_times(16 * (e * d), 2 * d);
}

/// The inertia of a cuboid about an axis across the sweep, to rounding: `w` is the square of the
/// half extent across that axis.
proof fn lemma_cross_axis(c: int, d: int, r: int, w: int)
    requires
        1 <= c,
        1 <= d,
        1 <= r,
        1 <= w,
        fits(32 * ((r * (c * d)) * (d * d)) + 32 * ((r * (c * d)) * w)),
    ensures
        ({
            let slab = whole(32 * ((c * d) * (d * d))).over(whole(12));
            let moment = whole(16 * (c * w)).over(whole(12));
            let axis = whole(r).times(slab.plus(whole(2 * d).times(moment)));
            0 <= 8 * ((r * (c * d)) * (d * d + w)) * ONE - 3 * axis.raw < 3 * (r * (1 + 2 * d))
        }),
{
    let e = c * d;
    let k = r * e;
    let n = 32 * (e * (d * d));
    let m = 16 * (c * w);
    lemma_grows(c, d);
    lemma_grows(r, e);
    lemma_grows(d, d);
    lemma_grows(e, d * d);
    lemma_grows(c, w);
    lemma_grows(k, d * d);
    lemma_grows(k, w);
    lemma_monotone(e, d * d, k, d * d);
    lemma_monotone(c, w, k, w);
    lemma_monotone(d, 1, k, d * d);
    let slab = whole(n).over(whole(12));
    let moment = whole(m).over(whole(12));
    lemma_over_twelve(n);
    lemma_over_twelve(m);
    lemma_axis(r, d, slab.raw as int, moment.raw as int, n * ONE, m * ONE);
    let full = 32 * (k * (d * d + w));
    assert(r * (n * ONE + 2 * d * (m * ONE)) == full * ONE) by (nonlinear_arith)
        requires
            full == 32 * (k * (d * d + w)),
            k == r * e,
            e == c * d,
            n == 32 * (e * (d * d)),
            m == 16 * (c * w),
    ;
    assert(k * (d * d + w) == k * (d * d) + k * w) by (nonlinear_arith);
    let deep = 2 * d * moment.raw;
    let sum = slab.raw + deep;
    assert(0 <= deep) by (nonlinear_arith)
        requires
            deep == 2 * d * moment.raw,
            1 <= d,
            0 <= moment.raw,
    ;
    assert(sum <= r * sum) by (nonlinear_arith)
        requires
            1 <= r,
            0 <= sum,
    ;
    assert(deep == (2 * d) * moment.raw);
    lemma_whole_scales(2 * d, moment);
    assert(slab.plus(whole(2 * d).times(moment)).raw == sum);
    lemma_whole_scales(r, slab.plus(whole(2 * d).times(moment)));
}

/// The inertia of a cuboid about the sweep, to rounding.
proof fn lemma_sweep_axis(c: int, d: int, r: int, u: int, v: int)
    requires
        1 <= c,
        1 <= d,
        1 <= r,
        1 <= u,
        1 <= v,
        fits(32 * ((r * (c * d)) * u) + 32 * ((r * (c * d)) * v)),
    ensures
        ({
            let sum = whole(16 * (c * u)).over(whole(12)).plus(
                whole(16 * (c * v)).over(whole(12)),
            );
            let axis = whole(r).times(whole(2 * d)).times(sum);
            0 <= 8 * ((r * (c * d)) * (u + v)) * ONE - 3 * axis.raw < 12 * (r * d)
        }),
{
    let e = c * d;
    let k = r * e;
    let m = 16 * (c * u);
    let n = 16 * (c * v);
    lemma_grows(c, d);
    lemma_grows(r, e);
    lemma_grows(r, d);
    lemma_grows(c, u);
    lemma_grows(c, v);
    lemma_grows(k, u);
    lemma_grows(k, v);
    lemma_monotone(c, u, k, u);
    lemma_monotone(c, v, k, v);
    lemma_monotone(r, d, r, e);
    lemma_over_twelve(m);
    lemma_over_twelve(n);
    let p = whole(m).over(whole(12));
    let q = whole(n).over(whole(12));
    let sum = p.raw + q.raw;
    let j = 2 * (r * d);
    assert(r * (2 * d) == j) by (nonlinear_arith)
        requires
            j == 2 * (r * d),
    ;
    lemma_whole_times(r, 2 * d);
    let rest = (m + n) * ONE - 12 * sum;
    assert((m + n) * ONE == m * ONE + n * ONE);
    assert(0 <= rest <= 22);
    let full = 32 * (k * (u + v));
    assert(j * ((m + n) * ONE) == full * ONE) by (nonlinear_arith)
        requires
            full == 32 * (k * (u + v)),
            k == r * e,
            e == c * d,
            j == 2 * (r * d),
            m == 16 * (c * u),
            n == 16 * (c * v),
    ;
    assert(k * (u + v) == k * u + k * v) by (nonlinear_arith);
    assert(j * (12 * sum + rest) == 12 * (j * sum) + j * rest) by (nonlinear_arith);
    assert(0 <= j * rest <= j * 22) by (nonlinear_arith)
        requires
            0 <= rest <= 22,
            1 <= j,
    ;
    assert(sum <= j * sum) by (nonlinear_arith)
        requires
            1 <= j,
            0 <= sum,
    ;
    lemma_whole_scales(j, p.plus(q));
}

/// A rectangle extruded is a cuboid: of whole half extents `a` along X, `d` along the sweep and
/// `b` along Z and of whole density `r`, it has exactly the mass of one, its centre of mass at the
/// origin, no product of inertia, and about each axis the inertia `mass / 3` times the squared
/// half extents across it, but for the steps that two divisions round off.
pub proof fn law_whole_rectangle_is_cuboid(
    shape: ExtrudedProfile<Fixed>,
    a: int,
    b: int,
    d: int,
    r: int,
)
    requires
        is_cuboid(a, b, d, r),
        shape.profile@ == places(rectangle(a, b)),
        shape.arcs@.len() == 0,
        shape.half_depth == whole(d),
    ensures
        ({
            let m = shape.mass_spec(whole(r));
            let k = r * ((a * b) * d);
            &&& m.mass == whole(8 * k)
            &&& m.local_com == Vector::<Fixed>::origin()
            &&& m.inertia.x_axis.z == whole(0)
            &&& m.inertia.z_axis.x == whole(0)
            &&& 0 <= 8 * (k * (d * d + b * b)) * ONE - 3 * m.inertia.x_axis.x.raw < 3 * (r * (1 + 2
                * d))
            &&& 0 <= 8 * (k * (d * d + a * a)) * ONE - 3 * m.inertia.z_axis.z.raw < 3 * (r * (1 + 2
                * d))
            &&& 0 <= 8 * (k * (a * a + b * b)) * ONE - 3 * m.inertia.y_axis.y.raw < 12 * (r * d)
        }),
{
    let nodes = rectangle(a, b);
    let c = a * b;
    let e = c * d;
    let k = r * e;
    let zero = Fixed { raw: 0 };
    lemma_cuboid_fits(a, b, d, r);
    lemma_rectangle_sums(a, b);
    assert(has_room(nodes));
    law_whole_section(shape, nodes);
    let (area, centroid, ixx, izz, ixz) = shape.section_spec();
    assert(area == whole(4 * c)) by {
        assert(2 * area.raw == (8 * c) * ONE);
    }
    assert(area.magnitude() == area);
    assert(Fixed::of_count(2) == whole(2) && Fixed::of_count(12) == whole(12));
    lemma_whole_times(d, 2);
    assert(shape.depth() == whole(2 * d));
    assert(r * (4 * c) == 4 * (r * c)) by (nonlinear_arith);
    assert((4 * (r * c)) * (2 * d) == 8 * k) by (nonlinear_arith)
        requires
            k == r * (c * d),
    ;
    lemma_whole_times(r, 4 * c);
    lemma_whole_times(4 * (r * c), 2 * d);
    assert(shape.mass_of(whole(r)) == whole(8 * k));
    lemma_slab(c, d);
    lemma_grows(a, a);
    lemma_grows(b, b);
    lemma_cross_axis(c, d, r, b * b);
    lemma_cross_axis(c, d, r, a * a);
    lemma_sweep_axis(c, d, r, a * a, b * b);
    exact::lemma_zero_over(whole(24));
    assert(whole(0) == zero && Fixed::of_count(0) == zero);
    assert(ixz == zero);
    exact::lemma_times_zero(whole(r).negated().times(shape.depth()));
}

} // verus!
