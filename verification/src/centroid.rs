//! The sampled curve of an aggregated fuzzy set, and its centre of mass.

use vstd::prelude::*;
use crate::aggregate::{
    aggregate, clipped, lemma_aggregate_exists, lemma_aggregate_monotone, lemma_aggregate_single,
};
use crate::fixed::ONE;

verus! {

/// The normalized position of sample `i` out of `resolution`: the samples are
/// spread evenly over the unit interval, the first at 0 and the last at 1.
pub open spec fn sample_position(i: int, resolution: int) -> int {
    i * ONE / (resolution - 1)
}

/// Sample `i` of the aggregated curve: its position and the aggregated
/// membership there.
pub open spec fn curve_point<V, F: Fn(i64) -> i32>(
    functions: Map<V, F>,
    acuts: Map<V, i32>,
    resolution: int,
    i: int,
) -> (i32, i32) {
    let x = sample_position(i, resolution);
    (x as i32, aggregate(functions, acuts, x as i64) as i32)
}

/// The aggregated curve, sampled at `resolution` positions.
pub open spec fn curve<V, F: Fn(i64) -> i32>(
    functions: Map<V, F>,
    acuts: Map<V, i32>,
    resolution: nat,
) -> Seq<(i32, i32)> {
    Seq::new(resolution, |i: int| curve_point(functions, acuts, resolution as int, i))
}

/// The sum of the memberships of `points`.
pub open spec fn mass(points: Seq<(i32, i32)>) -> int
    decreases points.len(),
{
    if points.len() == 0 {
        0
    } else {
        mass(points.drop_last()) + points.last().1
    }
}

/// The sum over `points` of membership times position.
pub open spec fn moment_x(points: Seq<(i32, i32)>) -> int
    decreases points.len(),
{
    if points.len() == 0 {
        0
    } else {
        moment_x(points.drop_last()) + points.last().1 * points.last().0
    }
}

/// The sum over `points` of membership squared.
pub open spec fn moment_y(points: Seq<(i32, i32)>) -> int
    decreases points.len(),
{
    if points.len() == 0 {
        0
    } else {
        moment_y(points.drop_last()) + points.last().1 * points.last().1
    }
}

/// The centre of mass of the area under `points`: the first moment over the
/// mass, and the second moment over twice the mass, both rounded down.
pub open spec fn centroid(points: Seq<(i32, i32)>) -> (i32, i32) {
    (
        (moment_x(points) / mass(points)) as i32,
        (moment_y(points) / (2 * mass(points))) as i32,
    )
}

/// Whether `points` can be samples of an aggregated curve: positions in the
/// unit interval, memberships not below 0.
pub open spec fn on_unit_interval(points: Seq<(i32, i32)>) -> bool {
    forall|i: int|
        0 <= i < points.len() ==> 0 <= (#[trigger] points[i]).0 <= ONE && 0 <= points[i].1
}

/// Sample positions lie in the unit interval, and its two ends are sampled.
pub proof fn lemma_sample_position_bounds(i: int, resolution: int)
    requires
        2 <= resolution,
        0 <= i < resolution,
    ensures
        0 <= sample_position(i, resolution) <= ONE,
        sample_position(0, resolution) == 0,
        sample_position(resolution - 1, resolution) == ONE,
{
    let last = resolution - 1;
    assert(0 <= i * ONE / last <= ONE) by (nonlinear_arith)
        requires
            0 <= i <= last,
            last >= 1,
    ;
    assert(0 * ONE / last == 0) by (nonlinear_arith)
        requires
            last >= 1,
    ;
    assert(last * ONE / last == ONE) by (nonlinear_arith)
        requires
            last >= 1,
    ;
}

/// The aggregated curve lies over the unit interval and not below 0.
pub proof fn lemma_curve_on_unit_interval<V, F: Fn(i64) -> i32>(
    functions: Map<V, F>,
    acuts: Map<V, i32>,
    resolution: nat,
)
    requires
        acuts.dom().finite(),
        2 <= resolution,
    ensures
        on_unit_interval(curve(functions, acuts, resolution)),
{
    let points = curve(functions, acuts, resolution);
    assert forall|i: int| 0 <= i < points.len() implies 0 <= (#[trigger] points[i]).0 <= ONE && 0
        <= points[i].1 by {
        lemma_sample_position_bounds(i, resolution as int);
        lemma_aggregate_exists(functions, acuts, sample_position(i, resolution as int) as i64);
    }
}

/// Raising activation strengths never lowers a sample of the aggregated curve:
/// where `higher` activates the labels of `lower`, each at least as strongly,
/// every sample under `higher` is at least the sample under `lower`.
pub proof fn lemma_curve_monotone<V, F: Fn(i64) -> i32>(
    functions: Map<V, F>,
    lower: Map<V, i32>,
    higher: Map<V, i32>,
    resolution: nat,
    i: int,
)
    requires
        lower.dom().finite(),
        higher.dom().finite(),
        forall|l: V| #[trigger]
            lower.contains_key(l) ==> higher.contains_key(l) && lower[l] <= higher[l],
        2 <= resolution,
        0 <= i < resolution,
    ensures
        curve(functions, lower, resolution)[i].0 == curve(functions, higher, resolution)[i].0,
        curve(functions, lower, resolution)[i].1 <= curve(functions, higher, resolution)[i].1,
{
    let x = sample_position(i, resolution as int) as i64;
    lemma_aggregate_monotone(functions, lower, higher, x);
    lemma_aggregate_exists(functions, lower, x);
    lemma_aggregate_exists(functions, higher, x);
}

/// With a single label, every sample of the aggregated curve is that label's
/// degree at the sample's position, cut off at the label's activation
/// strength, or 0 where that is negative.
pub proof fn lemma_curve_single<V, F: Fn(i64) -> i32>(
    functions: Map<V, F>,
    acuts: Map<V, i32>,
    l: V,
    resolution: nat,
    i: int,
)
    requires
        acuts.dom() == set![l],
        2 <= resolution,
        0 <= i < resolution,
    ensures
        ({
            let (x, y) = curve(functions, acuts, resolution)[i];
            let cut_off = clipped(functions[l], acuts[l], x as i64);
            y == if cut_off >= 0 {
                cut_off
            } else {
                0
            }
        }),
{
    let x = sample_position(i, resolution as int);
    lemma_sample_position_bounds(i, resolution as int);
    lemma_aggregate_single(functions, acuts, l, x as i64);
}

/// The moments of a curve over the unit interval are bounded by its mass: the
/// centre of mass lies over the unit interval, and no higher than half the
/// greatest membership.
pub proof fn lemma_moment_bounds(points: Seq<(i32, i32)>)
    requires
        on_unit_interval(points),
    ensures
        0 <= mass(points) <= points.len() * i32::MAX,
        0 <= moment_x(points) <= ONE * mass(points),
        0 <= moment_y(points) <= i32::MAX * mass(points),
    decreases points.len(),
{
    if points.len() > 0 {
        let (x, y) = points.last();
        lemma_moment_bounds(points.drop_last());
        assert(0 <= y * x <= ONE * y) by (nonlinear_arith)
            requires
                0 <= x <= ONE,
                0 <= y,
        ;
        assert(0 <= y * y <= i32::MAX * y) by (nonlinear_arith)
            requires
                0 <= y <= i32::MAX,
        ;
    }
}

/// A curve that is not below 0 has mass 0 exactly where every membership is 0.
pub proof fn lemma_mass_zero(points: Seq<(i32, i32)>)
    requires
        on_unit_interval(points),
    ensures
        mass(points) == 0 <==> forall|i: int|
            0 <= i < points.len() ==> (#[trigger] points[i]).1 == 0,
    decreases points.len(),
{
    if points.len() > 0 {
        let rest = points.drop_last();
        lemma_mass_zero(rest);
        lemma_moment_bounds(rest);
        if mass(points) == 0 {
            assert forall|i: int| 0 <= i < points.len() implies (#[trigger] points[i]).1 == 0 by {
                if i < rest.len() {
                    assert(rest[i] == points[i]);
                }
            }
        }
    }
}

/// The centre of mass of a curve with mass lies over the unit interval, not
/// below 0, and fits the fixed-point type.
pub proof fn lemma_centroid_bounds(points: Seq<(i32, i32)>)
    requires
        on_unit_interval(points),
        mass(points) > 0,
    ensures
        0 <= moment_x(points) / mass(points) <= ONE,
        0 <= moment_y(points) / (2 * mass(points)) <= i32::MAX,
{
    lemma_moment_bounds(points);
    let m = mass(points);
    let mx = moment_x(points);
    let my = moment_y(points);
    assert(0 <= mx / m <= ONE) by (nonlinear_arith)
        requires
            m > 0,
            0 <= mx <= ONE * m,
    ;
    assert(0 <= my / (2 * m) <= i32::MAX) by (nonlinear_arith)
        requires
            m > 0,
            0 <= my <= i32::MAX * m,
    ;
}

} // verus!
