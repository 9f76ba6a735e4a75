//! Mean and standard deviation of a set of positions.
//!
//! Each axis is treated on its own. The mean is the sum divided by the
//! number of positions, rounded down. The standard deviation is the square
//! root, rounded down, of the sum of the squared distances from that mean
//! divided by one less than the number of positions, rounded down. One
//! position alone has no spread: its standard deviation is zero.
use vstd::prelude::*;
use vstd::arithmetic::div_mod::{
    lemma_div_is_ordered, lemma_div_multiples_vanish, lemma_hoist_over_denominator,
};
use crate::arith::{is_sqrt, isqrt, lemma_sqrt_floor, sqrt_floor};
use crate::position::{project, Axis, Position, Spread, Statistics};

verus! {

/// Why no statistics can be given.
#[derive(Clone, Copy, Debug, PartialEq, Eq, Structural)]
pub enum StatisticsError {
    /// There are no positions, so not even a mean.
    Empty,
}

/// The sum of `values`.
pub open spec fn sum(values: Seq<int>) -> int
    decreases values.len(),
{
    if values.len() == 0 {
        0
    } else {
        sum(values.drop_last()) + values.last()
    }
}

/// The mean of `values`, rounded down.
pub open spec fn mean_of(values: Seq<int>) -> int {
    sum(values) / (values.len() as int)
}

/// The sum of the squared distances of `values` from `center`.
pub open spec fn squared_deviations(values: Seq<int>, center: int) -> int
    decreases values.len(),
{
    if values.len() == 0 {
        0
    } else {
        squared_deviations(values.drop_last(), center) + (values.last() - center) * (values.last()
            - center)
    }
}

/// The sample variance of `values` about their rounded mean, rounded down;
/// zero for fewer than two values.
pub open spec fn variance_of(values: Seq<int>) -> int {
    if values.len() < 2 {
        0
    } else {
        squared_deviations(values, mean_of(values)) / (values.len() - 1)
    }
}

/// The standard deviation of `values`: the square root of their variance,
/// rounded down.
pub open spec fn deviation_of(values: Seq<int>) -> nat {
    sqrt_floor(variance_of(values) as nat)
}

/// The mean and the standard deviation of `positions`, axis by axis.
pub open spec fn statistics_of(positions: Seq<Position>) -> Statistics {
    Statistics {
        mean: Position {
            lat: mean_of(project(positions, Axis::Latitude)) as i32,
            lon: mean_of(project(positions, Axis::Longitude)) as i32,
            alt: mean_of(project(positions, Axis::Altitude)) as i32,
        },
        stddev: Spread {
            lat: deviation_of(project(positions, Axis::Latitude)) as u64,
            lon: deviation_of(project(positions, Axis::Longitude)) as u64,
            alt: deviation_of(project(positions, Axis::Altitude)) as u64,
        },
    }
}

/// Squared distances add up to nothing negative.
pub proof fn lemma_squares_not_negative(values: Seq<int>, center: int)
    ensures
        squared_deviations(values, center) >= 0,
    decreases values.len(),
{
    if values.len() > 0 {
        lemma_squares_not_negative(values.drop_last(), center);
        assert((values.last() - center) * (values.last() - center) >= 0) by (nonlinear_arith);
    }
}

/// The sum of coordinates lies between their number times the least and
/// their number times the largest coordinate.
pub proof fn lemma_sum_bounds(positions: Seq<Position>, axis: Axis)
    ensures
        positions.len() * (-0x8000_0000) <= sum(project(positions, axis)) <= positions.len()
            * 0x7fff_ffff,
    decreases positions.len(),
{
    if positions.len() > 0 {
        lemma_sum_bounds(positions.drop_last(), axis);
        assert(project(positions.drop_last(), axis) =~= project(positions, axis).drop_last());
    }
}

/// What the statistics of a set of positions hold along each axis, with
/// nothing lost to the width of the numbers: the mean rounded down, and
/// the largest whole number whose square is not above the variance.
pub proof fn lemma_statistics_of(positions: Seq<Position>, axis: Axis)
    requires
        positions.len() > 0,
    ensures
        statistics_of(positions).mean.along(axis) == mean_of(project(positions, axis)),
        is_sqrt(
            statistics_of(positions).stddev.along(axis),
            variance_of(project(positions, axis)),
        ),
{
    let values = project(positions, axis);
    let n = positions.len() as int;
    lemma_sum_bounds(positions, axis);
    lemma_div_is_ordered(n * (-0x8000_0000), sum(values), n);
    lemma_div_is_ordered(sum(values), n * 0x7fff_ffff, n);
    lemma_div_multiples_vanish(-0x8000_0000, n);
    lemma_div_multiples_vanish(0x7fff_ffff, n);
    assert(n * (-0x8000_0000) == (-0x8000_0000) * n);
    assert(n * 0x7fff_ffff == 0x7fff_ffff * n);
    let m = mean_of(values);
    assert(-0x8000_0000 <= m <= 0x7fff_ffff);
    lemma_deviation_bound(positions, axis, m, n);
    let v = variance_of(values);
    lemma_squares_not_negative(values, m);
    if n >= 2 {
        lemma_div_is_ordered(squared_deviations(values, m), n * 0xffff_fffe_0000_0001, n - 1);
        assert(0 <= squared_deviations(values, m) / (n - 1)) by (nonlinear_arith)
            requires
                squared_deviations(values, m) >= 0,
                n >= 2,
        ;
        assert((n * 0xffff_fffe_0000_0001) / (n - 1) <= 2 * 0xffff_fffe_0000_0001)
            by (nonlinear_arith)
            requires
                n >= 2,
        ;
    }
    lemma_sqrt_floor(v as nat);
    let r = sqrt_floor(v as nat) as int;
    assert(r <= 0xffff_ffff_ffff_ffff) by (nonlinear_arith)
        requires
            0 <= r,
            r * r <= v,
            v <= 2 * 0xffff_fffe_0000_0001,
    ;
}

/// The squared distances of coordinates from a value that a coordinate
/// could have add up to no more than their number times the widest
/// distance squared.
proof fn lemma_deviation_bound(positions: Seq<Position>, axis: Axis, center: int, n: int)
    requires
        -0x8000_0000 <= center <= 0x7fff_ffff,
        n == positions.len(),
    ensures
        squared_deviations(project(positions, axis), center) <= n * 0xffff_fffe_0000_0001,
    decreases positions.len(),
{
    if positions.len() > 0 {
        lemma_deviation_bound(positions.drop_last(), axis, center, n - 1);
        assert(project(positions.drop_last(), axis) =~= project(positions, axis).drop_last());
        let away = project(positions, axis).last() - center;
        assert(away * away <= 0xffff_fffe_0000_0001) by (nonlinear_arith)
            requires
                -0xffff_ffff <= away <= 0xffff_ffff,
        ;
    }
}

/// Of equal values the sum is their number times the value, and no value
/// is away from it.
proof fn lemma_constant_values(values: Seq<int>, v: int)
    requires
        forall|i: int| 0 <= i < values.len() ==> values[i] == v,
    ensures
        sum(values) == values.len() * v,
        squared_deviations(values, v) == 0,
    decreases values.len(),
{
    if values.len() > 0 {
        lemma_constant_values(values.drop_last(), v);
        assert(values.len() * v == (values.len() - 1) * v + v) by (nonlinear_arith);
        assert((values.last() - v) * (values.last() - v) == 0) by (nonlinear_arith)
            requires
                values.last() == v,
        ;
    }
}

/// The statistics of a set of equal positions: the mean is that position,
/// and the standard deviation is zero along every axis.
pub proof fn lemma_identical_positions(positions: Seq<Position>, p: Position)
    requires
        positions.len() >= 1,
        forall|i: int| 0 <= i < positions.len() ==> positions[i] == p,
    ensures
        statistics_of(positions).mean == p,
        statistics_of(positions).stddev == (Spread { lat: 0, lon: 0, alt: 0 }),
{
    lemma_identical_axis(positions, p, Axis::Latitude);
    lemma_identical_axis(positions, p, Axis::Longitude);
    lemma_identical_axis(positions, p, Axis::Altitude);
}

proof fn lemma_identical_axis(positions: Seq<Position>, p: Position, axis: Axis)
    requires
        positions.len() >= 1,
        forall|i: int| 0 <= i < positions.len() ==> positions[i] == p,
    ensures
        mean_of(project(positions, axis)) == p.along(axis),
        deviation_of(project(positions, axis)) == 0,
{
    let values = project(positions, axis);
    let v = p.along(axis);
    let n = values.len() as int;
    lemma_constant_values(values, v);
    lemma_div_multiples_vanish(v, n);
    assert(n * v == v * n) by (nonlinear_arith);
    assert(mean_of(values) == v);
    assert(variance_of(values) == 0) by {
        if n >= 2 {
            assert(0int / (n - 1) == 0) by (nonlinear_arith)
                requires
                    n >= 2,
            ;
        }
    }
}

/// Mean and standard deviation along one axis.
fn axis_stats(positions: &Vec<Position>, axis: Axis) -> (r: (i32, u64))
    requires
        positions@.len() >= 1,
    ensures
        r.0 == mean_of(project(positions@, axis)),
        r.1 == deviation_of(project(positions@, axis)),
{
    let ghost values = project(positions@, axis);
    let n: usize = positions.len();
    let mut shifted: u128 = 0;
    let mut k: usize = 0;
    while k < n
        invariant
            0 <= k <= n,
            n == positions@.len(),
            values == project(positions@, axis),
            shifted == sum(values.take(k as int)) + k * 0x8000_0000,
            shifted <= k * 0xffff_ffff,
        decreases n - k,
    {
        let v: i32 = positions[k].coordinate(axis);
        proof {
            let upto = values.take(k as int + 1);
            assert(upto.drop_last() =~= values.take(k as int));
            assert(upto.last() == v);
        }
        shifted = shifted + (v as i64 + 0x8000_0000) as u128;
        k = k + 1;
    }
    assert(values.take(n as int) =~= values);
    let shifted_mean: u128 = shifted / (n as u128);
    proof {
        lemma_hoist_over_denominator(sum(values), 0x8000_0000, n as nat);
        lemma_div_is_ordered(shifted as int, n * 0xffff_ffff, n as int);
        lemma_div_multiples_vanish(0xffff_ffff, n as int);
        assert(n * 0xffff_ffff == 0xffff_ffff * n);
        assert(0x8000_0000 * n == n * 0x8000_0000);
    }
    let mean: i32 = (shifted_mean as i64 - 0x8000_0000) as i32;
    assert(mean == mean_of(values));
    if n == 1 {
        return (mean, 0);
    }
    proof {
        lemma_squares_not_negative(values, mean as int);
    }
    let mut squares: u128 = 0;
    let mut k: usize = 0;
    while k < n
        invariant
            0 <= k <= n,
            n == positions@.len(),
            values == project(positions@, axis),
            squares == squared_deviations(values.take(k as int), mean as int),
            squares <= k * 0xffff_fffe_0000_0001,
        decreases n - k,
    {
        let v: i32 = positions[k].coordinate(axis);
        proof {
            let upto = values.take(k as int + 1);
            assert(upto.drop_last() =~= values.take(k as int));
            assert(upto.last() == v);
        }
        let away: i64 = v as i64 - mean as i64;
        let distance: u64 = if away < 0 {
            (-away) as u64
        } else {
            away as u64
        };
        assert(distance * distance == away * away && distance * distance <= 0xffff_fffe_0000_0001)
            by (nonlinear_arith)
            requires
                distance == away || distance == -away,
                0 <= distance <= 0xffff_ffff,
        ;
        squares = squares + (distance as u128) * (distance as u128);
        k = k + 1;
    }
    assert(values.take(n as int) =~= values);
    let variance: u128 = squares / ((n - 1) as u128);
    (mean, isqrt(variance))
}

/// The mean and the standard deviation of `positions`, axis by axis.
///
/// Fails on an empty set; of a single position the standard deviation is
/// zero.
pub fn compute_stats(positions: &Vec<Position>) -> (r: Result<Statistics, StatisticsError>)
    ensures
        r == if positions@.len() == 0 {
            Err::<Statistics, StatisticsError>(StatisticsError::Empty)
        } else {
            Ok::<Statistics, StatisticsError>(statistics_of(positions@))
        },
{
    if positions.len() == 0 {
        return Err(StatisticsError::Empty);
    }
    let (lat, lat_dev) = axis_stats(positions, Axis::Latitude);
    let (lon, lon_dev) = axis_stats(positions, Axis::Longitude);
    let (alt, alt_dev) = axis_stats(positions, Axis::Altitude);
    Ok(
        Statistics {
            mean: Position { lat, lon, alt },
            stddev: Spread { lat: lat_dev, lon: lon_dev, alt: alt_dev },
        },
    )
}

} // verus!
