//! The face, edge or vertex of the shape that touches first in a direction.
use vstd::prelude::*;

use crate::arc::ProfileArc;
use crate::polygon;
use crate::profile;
use crate::profile::{ExtrudedProfile, PER_TURN};
use crate::scalar::{Lawful, Real, Scalar};
use crate::vector::{Vector, Vector2};

verus! {

/// The identifiers of what belongs to arcs start here.
pub const ARC_CODE: u32 = 1000;

/// The longest boundary whose sides' edges have identifiers of their own.
pub const MAX_BOUNDARY: u64 = 0x4000_0000;

/// The longest boundary whose vertices have identifiers of their own.
pub const MAX_CAP: u64 = 0x1_0000_0000;

/// The identifier of a feature of a shape: what it is, and which one.
#[derive(Copy, Clone, Debug, PartialEq, Eq, Structural)]
pub enum PackedFeatureId {
    Unknown,
    Vertex(u32),
    Edge(u32),
    Face(u32),
}

impl PackedFeatureId {
    pub fn vertex(code: u32) -> (r: Self)
        ensures
            r == PackedFeatureId::Vertex(code),
    {
        PackedFeatureId::Vertex(code)
    }

    pub fn edge(code: u32) -> (r: Self)
        ensures
            r == PackedFeatureId::Edge(code),
    {
        PackedFeatureId::Edge(code)
    }

    pub fn face(code: u32) -> (r: Self)
        ensures
            r == PackedFeatureId::Face(code),
    {
        PackedFeatureId::Face(code)
    }
}

/// A face of up to four corners, or an edge of two.
#[derive(Debug, PartialEq)]
pub struct PolygonalFeature<R> {
    /// The corners, `num_vertices` of them.
    pub vertices: [Vector<R>; 4],
    /// The identifier of each corner.
    pub vids: [PackedFeatureId; 4],
    /// The identifier of the edge that each corner starts.
    pub eids: [PackedFeatureId; 4],
    /// The identifier of the face.
    pub fid: PackedFeatureId,
    pub num_vertices: usize,
}

/// What a [`PolygonalFeature`] holds.
#[verifier::ext_equal]
pub struct FeatureView<R> {
    pub vertices: Seq<Vector<R>>,
    pub vids: Seq<PackedFeatureId>,
    pub eids: Seq<PackedFeatureId>,
    pub fid: PackedFeatureId,
    pub num_vertices: usize,
}

impl<R> View for PolygonalFeature<R> {
    type V = FeatureView<R>;

    open spec fn view(&self) -> FeatureView<R> {
        FeatureView {
            vertices: self.vertices@,
            vids: self.vids@,
            eids: self.eids@,
            fid: self.fid,
            num_vertices: self.num_vertices,
        }
    }
}

impl<R: Real> Default for PolygonalFeature<R> {
    fn default() -> (r: Self)
        ensures
            r@ == (FeatureView {
                vertices: Seq::new(4, |k: int| Vector::<R>::origin()),
                vids: Seq::new(4, |k: int| PackedFeatureId::Unknown),
                eids: Seq::new(4, |k: int| PackedFeatureId::Unknown),
                fid: PackedFeatureId::Unknown,
                num_vertices: 0,
            }),
    {
        let zero = Vector::zero();
        let unknown = PackedFeatureId::Unknown;
        PolygonalFeature {
            vertices: [zero, zero, zero, zero],
            vids: [unknown, unknown, unknown, unknown],
            eids: [unknown, unknown, unknown, unknown],
            fid: unknown,
            num_vertices: 0,
        }
    }
}

/// The edge of a boundary that faces a direction best, and how well.
pub struct EdgeReach<R> {
    pub index: usize,
    pub dot: R,
}

impl<R: Real> Copy for EdgeReach<R> {

}

impl<R: Real> Clone for EdgeReach<R> {
    fn clone(&self) -> (r: Self)
        ensures
            r == *self,
    {
        *self
    }
}

/// The outward normal of a counter-clockwise edge, as long as the edge.
pub open spec fn edge_normal<R: Scalar>(p: Vector2<R>, q: Vector2<R>) -> Vector2<R> {
    Vector2 { x: q.y.minus(p.y), y: q.x.minus(p.x).negated() }
}

impl<R: Scalar> EdgeReach<R> {
    /// Edge `i`, from `p` to `q`, if it is long enough to have a normal and that normal is nearer
    /// to `d`; else this.
    pub open spec fn or(self, i: usize, p: Vector2<R>, q: Vector2<R>, d: Vector2<R>) -> Self {
        let normal = edge_normal(p, q);
        let dot = normal.inner(d).over(normal.norm());
        if !normal.norm().at_most(R::epsilon_value()) && self.dot.below(dot) {
            EdgeReach { index: i, dot }
        } else {
            self
        }
    }

    /// The first of the first `count` edges of the loop `poly` whose unit normal is nearest to
    /// `d`.
    pub open spec fn of_edges(poly: Seq<Vector2<R>>, d: Vector2<R>, count: nat) -> Self
        decreases count,
    {
        if count == 0 {
            EdgeReach { index: 0, dot: R::neg_infinity_value() }
        } else {
            let i = count - 1;
            Self::of_edges(poly, d, i as nat).or(
                i as usize,
                poly[i],
                poly[(i + 1) % poly.len() as int],
                d,
            )
        }
    }

    /// The edge of the loop `poly` whose unit normal is nearest to `d`.
    pub open spec fn of_loop(poly: Seq<Vector2<R>>, d: Vector2<R>) -> Self {
        Self::of_edges(poly, d, poly.len())
    }
}

impl<R: Real> EdgeReach<R> {
    fn best(poly: &Vec<Vector2<R>>, d: Vector2<R>) -> (r: Self)
        ensures
            r == Self::of_loop(poly@, d),
            poly@.len() > 0 ==> r.index < poly@.len(),
    {
        let n: usize = poly.len();
        let mut best = EdgeReach { index: 0, dot: R::neg_infinity() };
        for i in 0..n
            invariant
                n == poly@.len(),
                best == Self::of_edges(poly@, d, i as nat),
                best.index < n || n == 0,
        {
            let p = poly[i];
            let q = poly[if i + 1 == n {
                0
            } else {
                i + 1
            }];
            proof {
                polygon::lemma_next(i as int, n as int);
            }
            let e = Vector2::new(q.x.sub(p.x), q.y.sub(p.y));
            let normal = Vector2::new(e.y, e.x.neg());
            let len = normal.length();
            if !len.is_at_most(R::epsilon()) {
                let dot = normal.dot(d).div(len);
                if best.dot.is_below(dot) {
                    best = EdgeReach { index: i, dot };
                }
            }
        }
        best
    }
}

/// How many corners stand for a cap of `n` vertices.
pub open spec fn cap_count(n: nat) -> nat {
    if n < 4 {
        n
    } else {
        4
    }
}

/// How many vertices on from the first the corner `k` of a cap of `n` vertices lies: every so many
/// vertices the same, and, where that would take one vertex after the other, as evenly around as
/// whole numbers allow.
pub open spec fn cap_along(n: nat, k: nat) -> nat {
    let stride = n / cap_count(n);
    if 2 <= stride {
        k * stride
    } else {
        (k * n) / cap_count(n)
    }
}

/// Do the identifiers of side `i` of `n` fit?
pub open spec fn side_ids_fit(i: nat, n: nat) -> bool {
    &&& 4 * i + 3 <= u32::MAX
    &&& i + n <= u32::MAX
    &&& (i + 1) % n + n <= u32::MAX
}

/// The vertex that is corner `k` of a cap of `n` vertices, the other way round on the lower cap.
pub open spec fn cap_index(n: nat, k: nat, up: bool) -> nat {
    let along = cap_along(n, k);
    if up {
        along
    } else {
        ((n - along) as nat) % n
    }
}

/// The first arc from `from` on that faces `angle`.
pub open spec fn first_facing<R: Scalar>(arcs: Seq<ProfileArc<R>>, angle: R, from: nat) -> Option<nat>
    decreases arcs.len() - from,
{
    if from >= arcs.len() {
        None
    } else if arcs[from as int].faces(angle) {
        Some(from)
    } else {
        first_facing(arcs, angle, from + 1)
    }
}

impl<R: Scalar> ExtrudedProfile<R> {
    /// The arc whose curved side faces `dir`, if `dir` points more to the side than along the
    /// sweep.
    pub open spec fn side_arc(self, dir: Vector<R>) -> Option<nat> {
        match dir.in_plane().unit() {
            Some(unit) => if dir.y.magnitude().below(dir.in_plane().norm()) {
                first_facing(self.arcs@, unit.heading(), 0)
            } else {
                None
            },
            None => None,
        }
    }

    /// Is the face towards `dir` a cap, rather than one of the sides?
    pub open spec fn is_cap(self, dir: Vector<R>) -> bool {
        EdgeReach::of_loop(self.boundary(), dir.in_plane()).dot.at_most(dir.y.magnitude())
    }

    /// The line along the sweep over the point `p` of arc `a`.
    pub open spec fn arc_line(
        self,
        before: FeatureView<R>,
        p: Vector2<R>,
        a: nat,
    ) -> FeatureView<R> {
        FeatureView {
            vertices: before.vertices.update(
                0,
                Vector::over_plane(p, self.half_depth.negated()),
            ).update(1, Vector::over_plane(p, self.half_depth)),
            vids: before.vids.update(0, PackedFeatureId::Vertex((ARC_CODE + 2 * a) as u32)).update(
                1,
                PackedFeatureId::Vertex((ARC_CODE + 2 * a + 1) as u32),
            ),
            eids: before.eids.update(0, PackedFeatureId::Edge((ARC_CODE + a) as u32)).update(
                1,
                PackedFeatureId::Edge((ARC_CODE + a) as u32),
            ),
            fid: PackedFeatureId::Face((ARC_CODE + a) as u32),
            num_vertices: 2,
        }
    }

    /// The cap towards `dir`, by corners spread around the boundary.
    pub open spec fn cap_face(self, before: FeatureView<R>, dir: Vector<R>) -> FeatureView<R> {
        let n = self.boundary().len();
        let up = R::of_count(0).at_most(dir.y);
        FeatureView {
            vertices: Seq::new(
                4,
                |k: int|
                    if k < cap_count(n) {
                        Vector::over_plane(
                            self.boundary()[cap_index(n, k as nat, up) as int],
                            self.cap_height(dir.y),
                        )
                    } else {
                        before.vertices[k]
                    },
            ),
            vids: Seq::new(
                4,
                |k: int|
                    if k < cap_count(n) {
                        PackedFeatureId::Vertex(cap_index(n, k as nat, up) as u32)
                    } else {
                        before.vids[k]
                    },
            ),
            eids: Seq::new(
                4,
                |k: int|
                    if k < cap_count(n) {
                        PackedFeatureId::Edge(cap_index(n, k as nat, up) as u32)
                    } else {
                        before.eids[k]
                    },
            ),
            fid: PackedFeatureId::Face(
                if up {
                    0
                } else {
                    1
                },
            ),
            num_vertices: cap_count(n) as usize,
        }
    }

    /// The side over edge `i` of the boundary: the edge, swept the full depth.
    pub open spec fn side_face(self, i: nat) -> FeatureView<R> {
        let n = self.boundary().len();
        let j = ((i + 1) as nat) % n;
        let p = self.boundary()[i as int];
        let q = self.boundary()[j as int];
        FeatureView {
            vertices: seq![
                Vector::over_plane(p, self.half_depth.negated()),
                Vector::over_plane(q, self.half_depth.negated()),
                Vector::over_plane(q, self.half_depth),
                Vector::over_plane(p, self.half_depth),
            ],
            vids: seq![
                PackedFeatureId::Vertex(i as u32),
                PackedFeatureId::Vertex(j as u32),
                PackedFeatureId::Vertex((j + n) as u32),
                PackedFeatureId::Vertex((i + n) as u32),
            ],
            eids: Seq::new(4, |k: int| PackedFeatureId::Edge((4 * i + k) as u32)),
            fid: PackedFeatureId::Face((2 + i) as u32),
            num_vertices: 4,
        }
    }

    /// The feature of the shape towards `dir`, written over `before`, of which what the feature
    /// does not use is left in place.
    pub open spec fn support_feature(
        self,
        dir: Vector<R>,
        before: FeatureView<R>,
    ) -> FeatureView<R> {
        match self.side_arc(dir) {
            Some(a) => self.arc_line(
                before,
                self.arcs@[a as int].toward(dir.in_plane().unit().unwrap()),
                a,
            ),
            None => if self.boundary().len() == 0 {
                FeatureView { num_vertices: 0, ..before }
            } else if self.is_cap(dir) {
                self.cap_face(before, dir)
            } else {
                self.side_face(
                    EdgeReach::of_loop(self.boundary(), dir.in_plane()).index as nat,
                )
            },
        }
    }

    /// Do the identifiers that the feature towards `dir` calls for fit?
    pub open spec fn feature_ids_fit(self, dir: Vector<R>) -> bool {
        match self.side_arc(dir) {
            Some(a) => ARC_CODE + 2 * a + 1 <= u32::MAX,
            None => if self.boundary().len() == 0 {
                true
            } else if self.is_cap(dir) {
                self.boundary().len() <= MAX_CAP
            } else {
                side_ids_fit(
                    EdgeReach::of_loop(self.boundary(), dir.in_plane()).index as nat,
                    self.boundary().len(),
                )
            },
        }
    }
}

impl<R: Real> ExtrudedProfile<R> {
    /// The feature of the shape that touches first in the direction `dir`: the line where an arc's
    /// curved side touches, a cap, or a flat side.
    pub fn local_support_feature(&self, dir: Vector<R>, out: &mut PolygonalFeature<R>)
        requires
            self.feature_ids_fit(dir),
        ensures
            final(out)@ == self.support_feature(dir, old(out)@),
    {
        let d2 = dir.xz();
        // An arc facing this way has no flat side to clip against: the contact feature is the
        // line where the sweep touches it. Two vertices, and it is treated as an edge.
        if let Some(unit) = d2.try_normalize() {
            let angle = unit.angle();
            if dir.y.abs().is_below(d2.length()) {
                for a in 0..self.arcs.len()
                    invariant
                        *out == *old(out),
                        d2 == dir.in_plane(),
                        d2.unit() == Some(unit),
                        angle == unit.heading(),
                        dir.y.magnitude().below(d2.norm()),
                        first_facing(self.arcs@, angle, a as nat) == self.side_arc(dir),
                        self.feature_ids_fit(dir),
                {
                    let arc = self.arcs[a];
                    if arc.spans(angle) {
                        self.write_arc_line(arc.center.add(unit.mul(arc.radius)), a as u32, out);
                        return ;
                    }
                }
            }
        }
        assert(self.side_arc(dir) is None);
        // Arcs sampled, so a cap face is the whole boundary rather than just its corners.
        let boundary = self.tessellated();
        let n: usize = boundary.len();
        if n == 0 {
            out.num_vertices = 0;
            return ;
        }
        // Is the support face a cap, or a side? Compare how well the sweep axis matches `dir`
        // against the best the profile's own edge normals can do: the two are measured in the same
        // units and the larger wins.
        let edge = EdgeReach::best(&boundary, d2);
        if edge.dot.is_at_most(dir.y.abs()) {
            self.write_cap(&boundary, dir, out);
        } else {
            self.write_side(&boundary, edge.index, out);
        }
    }

    fn write_arc_line(&self, p: Vector2<R>, a: u32, out: &mut PolygonalFeature<R>)
        requires
            ARC_CODE + 2 * a + 1 <= u32::MAX,
        ensures
            final(out)@ == self.arc_line(old(out)@, p, a as nat),
    {
        out.vertices[0] = Vector::new(p.x, self.half_depth.neg(), p.y);
        out.vertices[1] = Vector::new(p.x, self.half_depth, p.y);
        out.vids[0] = PackedFeatureId::vertex(ARC_CODE + a * 2);
        out.vids[1] = PackedFeatureId::vertex(ARC_CODE + 1 + a * 2);
        out.eids[0] = PackedFeatureId::edge(ARC_CODE + a);
        out.eids[1] = PackedFeatureId::edge(ARC_CODE + a);
        out.num_vertices = 2;
        out.fid = PackedFeatureId::face(ARC_CODE + a);
    }

    /// Four vertices spread around the profile rather than four consecutive ones, which on a
    /// many-sided profile would be a sliver off to one side of the real contact patch.
    fn write_cap(&self, boundary: &Vec<Vector2<R>>, dir: Vector<R>, out: &mut PolygonalFeature<R>)
        requires
            boundary@ == self.boundary(),
            0 < boundary@.len() <= MAX_CAP,
        ensures
            final(out)@ == self.cap_face(old(out)@, dir),
    {
        let n: usize = boundary.len();
        let up = R::from_usize(0).is_at_most(dir.y);
        let cap = if up {
            self.half_depth
        } else {
            self.half_depth.neg()
        };
        let count: usize = if n < 4 {
            n
        } else {
            4
        };
        let stride: usize = n / count;
        let ghost face = self.cap_face(old(out)@, dir);
        for k in 0..count
            invariant
                n == boundary@.len(),
                boundary@ == self.boundary(),
                0 < n <= MAX_CAP,
                count == cap_count(n as nat),
                stride == n / count,
                up == R::of_count(0).at_most(dir.y),
                cap == self.cap_height(dir.y),
                face == self.cap_face(old(out)@, dir),
                out@.vertices =~= face.vertices.take(k as int) + old(out)@.vertices.skip(k as int),
                out@.vids =~= face.vids.take(k as int) + old(out)@.vids.skip(k as int),
                out@.eids =~= face.eids.take(k as int) + old(out)@.eids.skip(k as int),
        {
            proof {
                lemma_cap_steps(n as nat, k as nat);
            }
            // A boundary too short to skip vertices at an even stride is gone around in uneven
            // steps, lest the cap be four vertices in a row.
            let along: usize = if stride >= 2 {
                k * stride
            } else {
                k * n / count
            };
            // Reverse the winding on the -Y cap so the face stays outward-facing.
            let i: usize = if up {
                along
            } else {
                (n - along) % n
            };
            let p = boundary[i];
            out.vertices[k] = Vector::new(p.x, cap, p.y);
            out.vids[k] = PackedFeatureId::vertex(i as u32);
            out.eids[k] = PackedFeatureId::edge(i as u32);
        }
        out.num_vertices = count;
        out.fid = PackedFeatureId::face(
            if up {
                0
            } else {
                1
            },
        );
    }

    /// A side quad: one profile edge swept the full depth.
    fn write_side(&self, boundary: &Vec<Vector2<R>>, i: usize, out: &mut PolygonalFeature<R>)
        requires
            boundary@ == self.boundary(),
            i < boundary@.len(),
            side_ids_fit(i as nat, boundary@.len()),
        ensures
            final(out)@ == self.side_face(i as nat),
    {
        let n: usize = boundary.len();
        let j: usize = if i + 1 == n {
            0
        } else {
            i + 1
        };
        proof {
            polygon::lemma_next(i as int, n as int);
        }
        let p = boundary[i];
        let q = boundary[j];
        let depth = self.half_depth;
        out.vertices[0] = Vector::new(p.x, depth.neg(), p.y);
        out.vertices[1] = Vector::new(q.x, depth.neg(), q.y);
        out.vertices[2] = Vector::new(q.x, depth, q.y);
        out.vertices[3] = Vector::new(p.x, depth, p.y);
        out.vids[0] = PackedFeatureId::vertex(i as u32);
        out.vids[1] = PackedFeatureId::vertex(j as u32);
        out.vids[2] = PackedFeatureId::vertex(j as u32 + n as u32);
        out.vids[3] = PackedFeatureId::vertex(i as u32 + n as u32);
        out.eids[0] = PackedFeatureId::edge(i as u32 * 4);
        out.eids[1] = PackedFeatureId::edge(i as u32 * 4 + 1);
        out.eids[2] = PackedFeatureId::edge(i as u32 * 4 + 2);
        out.eids[3] = PackedFeatureId::edge(i as u32 * 4 + 3);
        out.num_vertices = 4;
        out.fid = PackedFeatureId::face(2 + i as u32);
    }
}

/// Where a corner of a cap lies, by how many vertices there are.
proof fn lemma_cap_along(n: nat, k: nat)
    requires
        0 < n,
    ensures
        n < 4 ==> cap_along(n, k) == k && n / cap_count(n) == 1 && n % cap_count(n) == 0,
        4 <= n < 8 ==> cap_along(n, k) == (k * n) / 4 && n / cap_count(n) == 1,
        8 <= n ==> cap_along(n, k) == k * (n / 4) && 2 <= n / 4,
{
    if n < 4 {
        assert(n as int / n as int == 1 && n as int % n as int == 0) by (nonlinear_arith)
            requires
                0 < n,
        ;
        assert((k * n) as int / n as int == k) by (nonlinear_arith)
            requires
                0 < n,
        ;
    }
}

/// The corners of a cap are reached one by one without going around the boundary.
pub proof fn lemma_cap_steps(n: nat, k: nat)
    requires
        0 < n,
        k < cap_count(n),
    ensures
        cap_along(n, k) < n,
        2 <= n / cap_count(n) || k * n < 32,
        cap_index(n, k, true) < n,
        cap_index(n, k, false) < n,
        0 < k ==> 0 < cap_index(n, k, true),
        0 < k ==> cap_index(n, k, false) == n - cap_index(n, k, true),
        k == 0 ==> cap_index(n, k, true) == 0 && cap_index(n, k, false) == 0,
{
    let along = cap_along(n, k) as int;
    lemma_cap_along(n, k);
    if n < 4 {
        assert(k * n < 32) by (nonlinear_arith)
            requires
                0 <= k < n < 4,
        ;
    } else if n < 8 {
        assert(0 <= (k * n) as int / 4 < n && (0 < k ==> 0 < (k * n) as int / 4)) by (nonlinear_arith)
            requires
                0 <= k < 4,
                4 <= n,
        ;
        assert(k * n < 32) by (nonlinear_arith)
            requires
                0 <= k < 4,
                n < 8,
        ;
    } else {
        let s = n as int / 4;
        assert(0 <= k * s < n && (0 < k ==> 0 < k * s)) by (nonlinear_arith)
            requires
                s == n as int / 4,
                0 <= k < 4,
                8 <= n,
        ;
    }
    if k == 0 {
        vstd::arithmetic::div_mod::lemma_mod_self_0(n as int);
    } else {
        vstd::arithmetic::div_mod::lemma_small_mod((n - along) as nat, n);
    }
}

/// From one corner of a cap to the next, around the boundary and back to the start, it is a quarter
/// of the boundary in whole vertices, give or take what the quarters leave over: never a sliver.
pub proof fn law_cap_spreads(n: nat, k: nat)
    requires
        k < cap_count(n),
    ensures
        cap_index(n, k, true) < n,
        ({
            let next = if k + 1 < cap_count(n) {
                cap_index(n, k + 1, true)
            } else {
                n
            };
            n / cap_count(n) <= next - cap_index(n, k, true) <= n / cap_count(n) + n % cap_count(n)
        }),
        1 <= n / cap_count(n),
{
    lemma_cap_steps(n, k);
    lemma_cap_along(n, k);
    lemma_cap_along(n, k + 1);
    if 4 <= n < 8 {
        let (a, b) = ((k * n) as int / 4, ((k + 1) * n) as int / 4);
        assert(1 <= b - a <= 1 + n as int % 4 && (k == 3 ==> b == n)) by (nonlinear_arith)
            requires
                a == (k * n) as int / 4,
                b == ((k + 1) * n) as int / 4,
                0 <= k < 4,
                4 <= n < 8,
        ;
    } else if 8 <= n {
        let s = n as int / 4;
        assert((k + 1) * s == k * s + s) by (nonlinear_arith);
        assert(k == 3 ==> k * s == 3 * s);
    }
}

/// On a boundary of eight vertices or more, it is one quarter of the boundary, in whole vertices, from
/// each corner of a cap to the next; on a shorter one, two vertices at most.
pub proof fn law_cap_stride(n: nat, k: nat)
    requires
        k + 1 < cap_count(n),
    ensures
        ({
            let gap = cap_index(n, k + 1, true) - cap_index(n, k, true);
            if 8 <= n {
                4 * gap <= n < 4 * (gap + 1)
            } else {
                1 <= gap <= 2
            }
        }),
{
    lemma_cap_along(n, k);
    lemma_cap_along(n, k + 1);
    if 8 <= n {
        let s = n as int / 4;
        assert((k + 1) * s == k * s + s) by (nonlinear_arith);
    } else if 4 <= n {
        let (a, b) = ((k * n) as int / 4, ((k + 1) * n) as int / 4);
        assert(1 <= b - a <= 2) by (nonlinear_arith)
            requires
                a == (k * n) as int / 4,
                b == ((k + 1) * n) as int / 4,
                4 <= n < 8,
        ;
    }
}

/// How far vertex `i` lies ahead of vertex `first` around a boundary of `n`.
pub open spec fn ahead(n: nat, first: nat, i: nat) -> int {
    if i >= first {
        i - first
    } else {
        n + i - first
    }
}

/// On a boundary of six vertices or more, the four corners of a cap are never consecutive: from
/// whatever vertex on, one of them is not among the next four.
pub proof fn law_cap_is_not_consecutive(n: nat, first: nat)
    requires
        6 <= n,
        first < n,
    ensures
        exists|k: nat| k < 4 && ahead(n, first, #[trigger] cap_index(n, k, true)) >= 4,
{
    law_cap_spreads(n, 0);
    law_cap_spreads(n, 1);
    law_cap_spreads(n, 2);
    law_cap_spreads(n, 3);
    lemma_cap_steps(n, 0);
    let k: nat = if first == 0 || first > cap_index(n, 3, true) {
        3
    } else if first > cap_index(n, 2, true) {
        2
    } else if first > cap_index(n, 1, true) {
        1
    } else {
        0
    };
    assert(ahead(n, first, cap_index(n, k, true)) >= 4);
}

/// No two corners of a cap are the same vertex, and the upper cap takes them in their order.
pub proof fn law_cap_corners_differ(n: nat, k: nat, l: nat, up: bool)
    requires
        k < l < cap_count(n),
    ensures
        cap_index(n, k, up) < n,
        cap_index(n, l, up) < n,
        cap_index(n, k, up) != cap_index(n, l, up),
        cap_index(n, k, true) < cap_index(n, l, true),
{
    lemma_cap_steps(n, k);
    lemma_cap_steps(n, l);
    lemma_cap_along(n, k);
    lemma_cap_along(n, l);
    if 4 <= n < 8 {
        assert((k * n) as int / 4 < (l * n) as int / 4) by (nonlinear_arith)
            requires
                k < l,
                4 <= n,
        ;
    } else if 8 <= n {
        let s = n as int / 4;
        assert(k * s < l * s) by (nonlinear_arith)
            requires
                k < l,
                0 < s,
        ;
    }
}

/// The lower cap starts at the same vertex as the upper one and takes the others the other way
/// round, so that either face looks outward.
pub proof fn law_cap_reverses(n: nat, k: nat)
    requires
        k < cap_count(n),
    ensures
        cap_index(n, 0, true) == 0,
        cap_index(n, 0, false) == 0,
        0 < k ==> cap_index(n, k, false) == n - cap_index(n, k, true),
{
    lemma_cap_steps(n, 0);
    lemma_cap_steps(n, k);
}

/// Every corner of a cap is a point of the boundary, on the cap.
pub proof fn law_cap_lies_on_shape<R: Lawful>(
    shape: ExtrudedProfile<R>,
    dir: Vector<R>,
    before: FeatureView<R>,
    k: int,
)
    requires
        0 <= k < shape.cap_face(before, dir).num_vertices,
        shape.boundary().len() > 0,
    ensures
        shape.cap_face(before, dir).vertices[k].y == shape.cap_height(dir.y),
        shape.boundary().contains(shape.cap_face(before, dir).vertices[k].in_plane()),
{
    let n = shape.boundary().len();
    let up = R::of_count(0).at_most(dir.y);
    assert(cap_count(n) <= 4);
    lemma_cap_steps(n, k as nat);
    let i = cap_index(n, k as nat, up) as int;
    assert(shape.cap_face(before, dir).vertices[k] == Vector::over_plane(
        shape.boundary()[i],
        shape.cap_height(dir.y),
    ));
    assert(shape.boundary()[i] == shape.cap_face(before, dir).vertices[k].in_plane());
}

/// A side is its edge of the boundary swept from one cap to the other: two corners over each end,
/// one on either cap.
pub proof fn law_side_is_swept_edge<R: Lawful>(shape: ExtrudedProfile<R>, i: nat)
    requires
        i < shape.boundary().len(),
    ensures
        ({
            let side = shape.side_face(i);
            let low = shape.half_depth.negated();
            let n = shape.boundary().len();
            &&& side.num_vertices == 4
            &&& side.vertices[0].in_plane() == shape.boundary()[i as int]
            &&& side.vertices[3].in_plane() == shape.boundary()[i as int]
            &&& side.vertices[1].in_plane() == shape.boundary()[((i + 1) % n) as int]
            &&& side.vertices[2].in_plane() == shape.boundary()[((i + 1) % n) as int]
            &&& side.vertices[0].y == low && side.vertices[1].y == low
            &&& side.vertices[2].y == shape.half_depth && side.vertices[3].y == shape.half_depth
        }),
{
}

/// The four corners of a side have four identifiers, and so have its edges, none of which any
/// other side has.
pub proof fn law_side_ids_differ<R: Lawful>(
    shape: ExtrudedProfile<R>,
    i: nat,
    j: nat,
    k: int,
    l: int,
)
    requires
        2 <= shape.boundary().len(),
        i < shape.boundary().len(),
        j < shape.boundary().len(),
        side_ids_fit(i, shape.boundary().len()),
        side_ids_fit(j, shape.boundary().len()),
        0 <= k < 4,
        0 <= l < 4,
    ensures
        k != l ==> shape.side_face(i).vids[k] != shape.side_face(i).vids[l],
        (i, k) != (j, l) ==> shape.side_face(i).eids[k] != shape.side_face(j).eids[l],
        i != j ==> shape.side_face(i).fid != shape.side_face(j).fid,
        shape.side_face(i).fid != PackedFeatureId::Face(0) && shape.side_face(i).fid
            != PackedFeatureId::Face(1),
{
    let n = shape.boundary().len();
    polygon::lemma_next(i as int, n as int);
    assert(shape.side_face(i).eids[k] == PackedFeatureId::Edge((4 * i + k) as u32));
    assert(shape.side_face(j).eids[l] == PackedFeatureId::Edge((4 * j + l) as u32));
}

/// Where an arc faces a direction to the side, the feature is a segment along the sweep, from cap
/// to cap, over the arc's own point towards that direction.
pub proof fn law_arc_feature_is_segment<R: Lawful>(
    shape: ExtrudedProfile<R>,
    dir: Vector<R>,
    unit: Vector2<R>,
    before: FeatureView<R>,
)
    requires
        shape.side_arc(dir) is Some,
        dir.in_plane().unit() == Some(unit),
        before.vertices.len() == 4,
    ensures
        ({
            let f = shape.support_feature(dir, before);
            let a = shape.side_arc(dir).unwrap() as int;
            &&& 0 <= a < shape.arcs@.len()
            &&& shape.arcs@[a].faces(unit.heading())
            &&& f.num_vertices == 2
            &&& f.vertices[0] == Vector::over_plane(
                shape.arcs@[a].toward(unit),
                shape.half_depth.negated(),
            )
            &&& f.vertices[1] == Vector::over_plane(shape.arcs@[a].toward(unit), shape.half_depth)
        }),
{
    lemma_first_facing(shape.arcs@, unit.heading(), 0);
}

/// A direction that points more to the side than along the sweep gets a segment as soon as any
/// arc faces it.
pub proof fn law_arc_feature_is_found<R: Lawful>(
    shape: ExtrudedProfile<R>,
    dir: Vector<R>,
    unit: Vector2<R>,
    j: int,
)
    requires
        dir.in_plane().unit() == Some(unit),
        dir.y.magnitude().below(dir.in_plane().norm()),
        0 <= j < shape.arcs@.len(),
        shape.arcs@[j].faces(unit.heading()),
    ensures
        shape.side_arc(dir) is Some,
        shape.side_arc(dir).unwrap() <= j,
{
    lemma_first_facing(shape.arcs@, unit.heading(), 0);
}

pub proof fn lemma_first_facing<R: Lawful>(arcs: Seq<ProfileArc<R>>, angle: R, from: nat)
    ensures
        match first_facing(arcs, angle, from) {
            Some(a) => from <= a < arcs.len() && arcs[a as int].faces(angle) && forall|j: int|
                from <= j < a ==> !(#[trigger] arcs[j]).faces(angle),
            None => forall|j: int| from <= j < arcs.len() ==> !(#[trigger] arcs[j]).faces(angle),
        },
    decreases arcs.len() - from,
{
    if from < arcs.len() && !arcs[from as int].faces(angle) {
        lemma_first_facing(arcs, angle, from + 1);
    }
}

/// No edge that is long enough to have a normal faces a direction better than the one that is
/// picked.
pub proof fn law_best_edge<R: Lawful>(poly: Seq<Vector2<R>>, d: Vector2<R>, i: int)
    requires
        0 <= i < poly.len() <= usize::MAX,
        !edge_normal(poly[i], poly[(i + 1) % poly.len() as int]).norm().at_most(
            R::epsilon_value(),
        ),
    ensures
        ({
            let normal = edge_normal(poly[i], poly[(i + 1) % poly.len() as int]);
            !EdgeReach::of_loop(poly, d).dot.below(normal.inner(d).over(normal.norm()))
        }),
        EdgeReach::of_loop(poly, d).index < poly.len(),
{
    lemma_edges(poly, d, poly.len(), i);
}

pub proof fn lemma_edges<R: Lawful>(poly: Seq<Vector2<R>>, d: Vector2<R>, count: nat, i: int)
    requires
        0 <= i < count <= poly.len() <= usize::MAX,
        !edge_normal(poly[i], poly[(i + 1) % poly.len() as int]).norm().at_most(
            R::epsilon_value(),
        ),
    ensures
        ({
            let normal = edge_normal(poly[i], poly[(i + 1) % poly.len() as int]);
            !EdgeReach::of_edges(poly, d, count).dot.below(normal.inner(d).over(normal.norm()))
        }),
        EdgeReach::of_edges(poly, d, count).index < poly.len(),
    decreases count,
{
    let last = count - 1;
    let best = EdgeReach::of_edges(poly, d, last as nat);
    let normal = edge_normal(poly[last], poly[(last + 1) % poly.len() as int]);
    let dot = normal.inner(d).over(normal.norm());
    lemma_edge_index(poly, d, last as nat);
    if i < last {
        lemma_edges(poly, d, last as nat, i);
        let other = edge_normal(poly[i], poly[(i + 1) % poly.len() as int]);
        let x = other.inner(d).over(other.norm());
        if best.dot.below(dot) && dot.below(x) {
            R::law_numbers(best.dot, dot);
            R::law_numbers(dot, x);
            R::law_numbers(best.dot, x);
            R::law_transitive(best.dot, dot, x);
            if x.at_most(best.dot) {
                R::law_transitive(x, best.dot, dot);
            }
        }
    } else {
        R::law_numbers(dot, dot);
    }
}

proof fn lemma_edge_index<R: Lawful>(poly: Seq<Vector2<R>>, d: Vector2<R>, count: nat)
    requires
        count <= poly.len() <= usize::MAX,
    ensures
        EdgeReach::of_edges(poly, d, count).index < count || EdgeReach::of_edges(
            poly,
            d,
            count,
        ).index == 0,
    decreases count,
{
    if count > 0 {
        lemma_edge_index(poly, d, (count - 1) as nat);
    }
}

/// A shape of valid arcs whose vertices and samples are not too many has identifiers for every
/// feature.
pub proof fn law_ids_fit<R: Lawful>(shape: ExtrudedProfile<R>, dir: Vector<R>)
    requires
        forall|j: int| 0 <= j < shape.arcs@.len() ==> (#[trigger] shape.arcs@[j]).is_valid(),
        shape.profile@.len() + PER_TURN * shape.arcs@.len() <= MAX_BOUNDARY,
    ensures
        shape.feature_ids_fit(dir),
{
    profile::law_boundary_length(shape);
    if dir.in_plane().unit() is Some {
        lemma_first_facing(shape.arcs@, dir.in_plane().unit().unwrap().heading(), 0);
    }
    let n = shape.boundary().len();
    if n > 0 {
        lemma_edge_index(shape.boundary(), dir.in_plane(), n);
        let i = EdgeReach::of_loop(shape.boundary(), dir.in_plane()).index as int;
        polygon::lemma_next(i, n as int);
    }
}

} // verus!
