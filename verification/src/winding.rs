//! Loose boundary points, and how they are put into a loop.
use vstd::prelude::*;

use crate::scalar::{Lawful, Real, Scalar};
use crate::vector::Vector2;

verus! {

/// The sum of `points`, added up in order.
pub open spec fn total<R: Scalar>(points: Seq<Vector2<R>>) -> Vector2<R>
    decreases points.len(),
{
    if points.len() == 0 {
        Vector2::origin()
    } else {
        total(points.drop_last()).plus(points.last())
    }
}

/// The mean of `points`.
pub open spec fn middle<R: Scalar>(points: Seq<Vector2<R>>) -> Vector2<R> {
    total(points).over(R::of_count(points.len()))
}

/// The angle at which `p` is seen from `center`.
pub open spec fn bearing<R: Scalar>(p: Vector2<R>, center: Vector2<R>) -> R {
    p.minus(center).heading()
}

/// Where a point seen at `b` goes into `sorted`: behind everything that is not seen at a greater
/// angle.
pub open spec fn slot<R: Scalar>(sorted: Seq<Vector2<R>>, b: R, center: Vector2<R>) -> nat
    decreases sorted.len(),
{
    if sorted.len() > 0 && b.below(bearing(sorted.last(), center)) {
        slot(sorted.drop_last(), b, center)
    } else {
        sorted.len()
    }
}

/// `points` by their angle about `center`, those at one angle in the order they came in.
pub open spec fn wound<R: Scalar>(points: Seq<Vector2<R>>, center: Vector2<R>) -> Seq<Vector2<R>>
    decreases points.len(),
{
    if points.len() == 0 {
        points
    } else {
        let sorted = wound(points.drop_last(), center);
        sorted.insert(slot(sorted, bearing(points.last(), center), center) as int, points.last())
    }
}

/// Are the two points too close to tell apart?
pub open spec fn coincide<R: Scalar>(a: Vector2<R>, b: Vector2<R>) -> bool {
    a.minus(b).inner(a.minus(b)).below(R::epsilon_value())
}

/// `points` without those that coincide with the last one kept before them.
pub open spec fn distinct<R: Scalar>(points: Seq<Vector2<R>>) -> Seq<Vector2<R>>
    decreases points.len(),
{
    if points.len() == 0 {
        points
    } else {
        let kept = distinct(points.drop_last());
        if kept.len() > 0 && coincide(points.last(), kept.last()) {
            kept
        } else {
            kept.push(points.last())
        }
    }
}

/// The mean of `points`.
pub fn mean<R: Real>(points: &Vec<Vector2<R>>) -> (r: Vector2<R>)
    ensures
        r == middle(points@),
{
    let mut sum = Vector2::<R>::zero();
    for i in 0..points.len()
        invariant
            sum == total(points@.take(i as int)),
    {
        assert(points@.take(i + 1).drop_last() =~= points@.take(i as int));
        sum = sum.add(points[i]);
    }
    assert(points@.take(points@.len() as int) =~= points@);
    sum.div(R::from_usize(points.len()))
}

/// Sorts `points` by their angle about `center`, which is enough to wind a convex loop. Points at
/// one angle stay in the order they came in.
pub fn wind<R: Real>(points: &Vec<Vector2<R>>, center: Vector2<R>) -> (r: Vec<Vector2<R>>)
    ensures
        r@ == wound(points@, center),
{
    let mut sorted: Vec<Vector2<R>> = Vec::new();
    assert(points@.take(0) =~= sorted@);
    for i in 0..points.len()
        invariant
            sorted@ == wound(points@.take(i as int), center),
    {
        let p = points[i];
        let b = p.sub(center).angle();
        let mut k: usize = sorted.len();
        assert(sorted@.take(k as int) =~= sorted@);
        while k > 0 && b.is_below(sorted[k - 1].sub(center).angle())
            invariant
                k <= sorted@.len(),
                slot(sorted@.take(k as int), b, center) == slot(sorted@, b, center),
            decreases k,
        {
            assert(sorted@.take(k as int).drop_last() =~= sorted@.take(k - 1));
            k = k - 1;
        }
        assert(k > 0 ==> sorted@.take(k as int).last() == sorted@[k - 1]);
        assert(points@.take(i + 1).drop_last() =~= points@.take(i as int));
        sorted.insert(k, p);
    }
    assert(points@.take(points@.len() as int) =~= points@);
    sorted
}

/// Drops every point that coincides with the last one kept before it.
pub fn dedup<R: Real>(points: &Vec<Vector2<R>>) -> (r: Vec<Vector2<R>>)
    ensures
        r@ == distinct(points@),
{
    let mut kept: Vec<Vector2<R>> = Vec::new();
    assert(points@.take(0) =~= kept@);
    for i in 0..points.len()
        invariant
            kept@ == distinct(points@.take(i as int)),
    {
        assert(points@.take(i + 1).drop_last() =~= points@.take(i as int));
        let p = points[i];
        let n: usize = kept.len();
        if n == 0 || !p.sub(kept[n - 1]).length_squared().is_below(R::epsilon()) {
            kept.push(p);
        }
    }
    assert(points@.take(points@.len() as int) =~= points@);
    kept
}

/// Winding neither loses nor invents points.
pub proof fn law_wound_permutes<R: Lawful>(points: Seq<Vector2<R>>, center: Vector2<R>)
    ensures
        wound(points, center).to_multiset() == points.to_multiset(),
        wound(points, center).len() == points.len(),
    decreases points.len(),
{
    broadcast use vstd::seq_lib::group_to_multiset_ensures;

    if points.len() > 0 {
        let rest = points.drop_last();
        let sorted = wound(rest, center);
        law_wound_permutes(rest, center);
        lemma_slot(sorted, bearing(points.last(), center), center);
        assert(points =~= rest.push(points.last()));
    }
}

/// Where every angle is a number, the loop runs through its points by rising angle.
pub proof fn law_wound_rises<R: Lawful>(points: Seq<Vector2<R>>, center: Vector2<R>, i: int, j: int)
    requires
        forall|k: int|
            0 <= k < points.len() ==> bearing(#[trigger] points[k], center).at_most(
                bearing(points[k], center),
            ),
        0 <= i <= j < points.len(),
    ensures
        bearing(wound(points, center)[i], center).at_most(
            bearing(wound(points, center)[j], center),
        ),
{
    lemma_wound_rises(points, center);
}

/// Points at one angle keep their order.
pub proof fn law_wound_stable<R: Lawful>(points: Seq<Vector2<R>>, center: Vector2<R>, b: R)
    requires
        forall|k: int|
            0 <= k < points.len() ==> bearing(#[trigger] points[k], center).at_most(
                bearing(points[k], center),
            ),
    ensures
        wound(points, center).filter(|p: Vector2<R>| bearing(p, center).same(b)) == points.filter(
            |p: Vector2<R>| bearing(p, center).same(b),
        ),
    decreases points.len(),
{
    let at = |p: Vector2<R>| bearing(p, center).same(b);
    reveal(Seq::filter);
    if points.len() > 0 {
        let rest = points.drop_last();
        let p = points.last();
        let sorted = wound(rest, center);
        let s = slot(sorted, bearing(p, center), center) as int;
        assert forall|k: int| 0 <= k < rest.len() implies bearing(
            #[trigger] rest[k],
            center,
        ).at_most(bearing(rest[k], center)) by {
            assert(rest[k] == points[k]);
        }
        law_wound_stable(rest, center, b);
        lemma_slot(sorted, bearing(p, center), center);
        let left = sorted.take(s);
        let right = sorted.skip(s);
        assert(sorted =~= left + right);
        assert(sorted.insert(s, p) =~= left.push(p) + right);
        Seq::filter_distributes_over_add(left, right, at);
        Seq::filter_distributes_over_add(left.push(p), right, at);
        assert(left.push(p).drop_last() =~= left);
        if at(p) {
            assert forall|k: int| 0 <= k < right.len() implies !at(#[trigger] right[k]) by {
                let other = bearing(right[k], center);
                assert(right[k] == sorted[s + k]);
                R::law_numbers(bearing(p, center), other);
                R::law_numbers(bearing(p, center), b);
                R::law_numbers(other, b);
                if other.same(b) {
                    R::law_transitive(other, b, bearing(p, center));
                }
            }
            lemma_filter_none(right, at);
            assert(left.filter(at) + right.filter(at) =~= left.filter(at));
            assert(left.push(p).filter(at) + right.filter(at) =~= left.filter(at).push(p));
        } else {
            assert(left.push(p).filter(at) == left.filter(at));
        }
    }
}

proof fn lemma_filter_none<A>(s: Seq<A>, pred: spec_fn(A) -> bool)
    requires
        forall|k: int| 0 <= k < s.len() ==> !pred(#[trigger] s[k]),
    ensures
        s.filter(pred).len() == 0,
    decreases s.len(),
{
    reveal(Seq::filter);
    if s.len() > 0 {
        assert(!pred(s[s.len() - 1]));
        lemma_filter_none(s.drop_last(), pred);
    }
}

/// The slot lies in range; what comes after it is seen at a greater angle, what stands just before
/// it is not.
proof fn lemma_slot<R: Lawful>(sorted: Seq<Vector2<R>>, b: R, center: Vector2<R>)
    ensures
        slot(sorted, b, center) <= sorted.len(),
        forall|k: int|
            slot(sorted, b, center) <= k < sorted.len() ==> b.below(
                bearing(#[trigger] sorted[k], center),
            ),
        slot(sorted, b, center) > 0 ==> !b.below(
            bearing(sorted[slot(sorted, b, center) - 1], center),
        ),
    decreases sorted.len(),
{
    if sorted.len() > 0 && b.below(bearing(sorted.last(), center)) {
        let rest = sorted.drop_last();
        lemma_slot(rest, b, center);
        assert forall|k: int| slot(sorted, b, center) <= k < sorted.len() implies b.below(
            bearing(#[trigger] sorted[k], center),
        ) by {
            if k < rest.len() {
                assert(rest[k] == sorted[k]);
            }
        }
    }
}

proof fn lemma_wound_rises<R: Lawful>(points: Seq<Vector2<R>>, center: Vector2<R>)
    requires
        forall|k: int|
            0 <= k < points.len() ==> bearing(#[trigger] points[k], center).at_most(
                bearing(points[k], center),
            ),
    ensures
        wound(points, center).len() == points.len(),
        forall|i: int, j: int|
            0 <= i <= j < points.len() ==> bearing(
                #[trigger] wound(points, center)[i],
                center,
            ).at_most(bearing(#[trigger] wound(points, center)[j], center)),
    decreases points.len(),
{
    if points.len() > 0 {
        let rest = points.drop_last();
        let p = points.last();
        let b = bearing(p, center);
        let sorted = wound(rest, center);
        assert forall|k: int| 0 <= k < rest.len() implies bearing(
            #[trigger] rest[k],
            center,
        ).at_most(bearing(rest[k], center)) by {
            assert(rest[k] == points[k]);
        }
        lemma_wound_rises(rest, center);
        lemma_slot(sorted, b, center);
        let s = slot(sorted, b, center) as int;
        let w = wound(points, center);
        assert(w == sorted.insert(s, p));
        assert(b.at_most(b)) by {
            assert(points[points.len() - 1] == p);
        }
        assert forall|i: int, j: int| 0 <= i <= j < points.len() implies bearing(
            #[trigger] w[i],
            center,
        ).at_most(bearing(#[trigger] w[j], center)) by {
            if i == s {
                if j > s {
                    assert(w[j] == sorted[j - 1]);
                    R::law_numbers(b, bearing(sorted[j - 1], center));
                }
            } else if j == s {
                assert(w[i] == sorted[i]);
                let before = bearing(sorted[s - 1], center);
                R::law_numbers(b, before);
                assert(bearing(sorted[i], center).at_most(before));
                assert(before.at_most(bearing(sorted[s - 1], center)));
                R::law_transitive(bearing(sorted[i], center), before, b);
            } else {
                let i0 = if i < s {
                    i
                } else {
                    i - 1
                };
                let j0 = if j < s {
                    j
                } else {
                    j - 1
                };
                assert(w[i] == sorted[i0]);
                assert(w[j] == sorted[j0]);
            }
        }
    }
}

/// Dropping points leaves no more than there were.
pub proof fn law_distinct_shrinks<R: Lawful>(points: Seq<Vector2<R>>)
    ensures
        distinct(points).len() <= points.len(),
        points.len() > 0 ==> distinct(points).len() > 0,
    decreases points.len(),
{
    if points.len() > 0 {
        law_distinct_shrinks(points.drop_last());
    }
}

/// Of the points that are left, none coincides with the one before it, and each is one of those
/// given.
pub proof fn law_distinct_keeps_apart<R: Lawful>(points: Seq<Vector2<R>>, i: int)
    requires
        0 < i < distinct(points).len(),
    ensures
        !coincide(distinct(points)[i], distinct(points)[i - 1]),
        points.contains(distinct(points)[i]),
    decreases points.len(),
{
    let rest = points.drop_last();
    let kept = distinct(rest);
    if i < kept.len() {
        law_distinct_keeps_apart(rest, i);
        let k = choose|k: int| 0 <= k < rest.len() && rest[k] == kept[i];
        assert(points[k] == kept[i]);
    } else {
        assert(points[points.len() - 1] == distinct(points)[i]);
    }
}

} // verus!
