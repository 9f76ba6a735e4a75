//! Removal of positions that lie far from the mean.
use vstd::prelude::*;
use crate::position::{Axis, Position, Statistics};

verus! {

/// Standard deviations within which a position is kept, unless told otherwise.
pub const DEFAULT_SIGMAS: u32 = 3;

/// Whether `p` lies strictly less than `k` standard deviations from the
/// mean along `axis`.
pub open spec fn within_axis(p: Position, stats: Statistics, k: int, axis: Axis) -> bool {
    stats.mean.along(axis) - k * stats.stddev.along(axis) < p.along(axis) < stats.mean.along(axis)
        + k * stats.stddev.along(axis)
}

/// Whether `p` lies strictly less than `k` standard deviations from the
/// mean along every axis at once.
pub open spec fn within(p: Position, stats: Statistics, k: int) -> bool {
    &&& within_axis(p, stats, k, Axis::Latitude)
    &&& within_axis(p, stats, k, Axis::Longitude)
    &&& within_axis(p, stats, k, Axis::Altitude)
}

/// The positions among `positions` that lie within `k` standard deviations
/// of the mean, in their order.
pub open spec fn retained(positions: Seq<Position>, stats: Statistics, k: int) -> Seq<Position>
    decreases positions.len(),
{
    if positions.len() == 0 {
        Seq::empty()
    } else {
        let rest = retained(positions.drop_last(), stats, k);
        if within(positions.last(), stats, k) {
            rest.push(positions.last())
        } else {
            rest
        }
    }
}

fn is_within_axis(p: &Position, stats: &Statistics, k: u32, axis: Axis) -> (b: bool)
    ensures
        b == within_axis(*p, *stats, k as int, axis),
{
    let deviation: u64 = stats.stddev.extent(axis);
    assert(0 <= k * deviation <= 0xffff_ffff * 0xffff_ffff_ffff_ffff) by (nonlinear_arith)
        requires
            0 <= k <= 0xffff_ffff,
            0 <= deviation <= 0xffff_ffff_ffff_ffff,
    ;
    let reach: i128 = (k as i128) * (deviation as i128);
    let mean: i128 = stats.mean.coordinate(axis) as i128;
    let value: i128 = p.coordinate(axis) as i128;
    mean - reach < value && value < mean + reach
}

/// Whether `p` lies strictly less than `k` standard deviations from the
/// mean along every axis at once.
pub fn is_within(p: &Position, stats: &Statistics, k: u32) -> (b: bool)
    ensures
        b == within(*p, *stats, k as int),
{
    is_within_axis(p, stats, k, Axis::Latitude) && is_within_axis(p, stats, k, Axis::Longitude)
        && is_within_axis(p, stats, k, Axis::Altitude)
}

/// Keeps the positions that lie strictly less than `k` standard deviations
/// from the mean along every axis at once, in their order. A position just
/// `k` deviations away along some axis is dropped.
pub fn filter_outliers(positions: &Vec<Position>, stats: &Statistics, k: u32) -> (kept: Vec<
    Position,
>)
    ensures
        kept@ == retained(positions@, *stats, k as int),
{
    let mut kept: Vec<Position> = Vec::new();
    let mut n: usize = 0;
    while n < positions.len()
        invariant
            0 <= n <= positions@.len(),
            kept@ == retained(positions@.take(n as int), *stats, k as int),
        decreases positions@.len() - n,
    {
        let p = positions[n];
        proof {
            let upto = positions@.take(n as int + 1);
            assert(upto.drop_last() =~= positions@.take(n as int));
            assert(upto.last() == p);
        }
        if is_within(&p, stats, k) {
            kept.push(p);
        }
        n = n + 1;
    }
    assert(positions@.take(n as int) =~= positions@);
    kept
}

/// What is kept: no more than there was, only positions of the set that lie
/// within, and every position of the set that does.
pub proof fn lemma_retained_are_those_within(positions: Seq<Position>, stats: Statistics, k: int)
    ensures
        retained(positions, stats, k).len() <= positions.len(),
        forall|i: int|
            0 <= i < retained(positions, stats, k).len() ==> within(
                #[trigger] retained(positions, stats, k)[i],
                stats,
                k,
            ) && positions.contains(retained(positions, stats, k)[i]),
        forall|j: int|
            0 <= j < positions.len() && within(#[trigger] positions[j], stats, k) ==> retained(
                positions,
                stats,
                k,
            ).contains(positions[j]),
    decreases positions.len(),
{
    if positions.len() > 0 {
        let rest = positions.drop_last();
        let last = positions.last();
        let kept = retained(positions, stats, k);
        let before = retained(rest, stats, k);
        lemma_retained_are_those_within(rest, stats, k);
        assert forall|i: int| 0 <= i < kept.len() implies within(#[trigger] kept[i], stats, k)
            && positions.contains(kept[i]) by {
            if i < before.len() {
                assert(kept[i] == before[i]);
                let j = choose|j: int| 0 <= j < rest.len() && rest[j] == before[i];
                assert(positions[j] == kept[i]);
            } else {
                assert(kept[i] == last);
                assert(positions[positions.len() - 1] == last);
            }
        }
        assert forall|j: int|
            0 <= j < positions.len() && within(#[trigger] positions[j], stats, k) implies kept.contains(
            positions[j],
        ) by {
            if j < rest.len() {
                assert(rest[j] == positions[j]);
                let i = choose|i: int| 0 <= i < before.len() && before[i] == rest[j];
                assert(kept[i] == positions[j]);
            } else {
                assert(kept[kept.len() - 1] == positions[j]);
            }
        }
    }
}

} // verus!
