//! Histograms of one coordinate around a reference mean.
//!
//! The value range is cut by evenly spaced boundaries, `divisions` to a
//! standard deviation, from `cutoff` deviations below the mean upwards. A
//! value below the first boundary belongs to no bin; a value at or above the
//! last boundary is counted in the last bin.
use vstd::prelude::*;
use vstd::arithmetic::div_mod::lemma_div_is_ordered;
use vstd::arithmetic::mul::lemma_mul_inequality;
use crate::arith::div_floor;
use crate::position::{project, Axis, Position, Statistics};

verus! {

/// Standard deviations covered on each side of the mean, unless told otherwise.
pub const DEFAULT_CUTOFF: u8 = 3;

/// Boundaries per standard deviation, unless told otherwise.
pub const DEFAULT_DIVISIONS: u8 = 6;

/// The frame of a histogram: where its boundaries lie.
#[derive(Clone, Copy, Debug, PartialEq, Eq, Structural)]
pub struct Binning {
    pub mean: i32,
    pub stddev: u64,
    pub cutoff: u8,
    pub divisions: u8,
}

/// One bin: its index, the boundaries on either side, and how many values it holds.
#[derive(Clone, Copy, Debug, PartialEq, Eq, Structural)]
pub struct HistogramBin {
    pub index: usize,
    pub low: i128,
    pub high: i128,
    pub count: usize,
}

/// The frame that `stats` gives along `axis`.
pub open spec fn frame(stats: Statistics, axis: Axis, cutoff: u8, divisions: u8) -> Binning {
    Binning {
        mean: stats.mean.along(axis) as i32,
        stddev: stats.stddev.along(axis) as u64,
        cutoff,
        divisions,
    }
}

impl Binning {
    /// The number of boundaries.
    pub open spec fn count(self) -> int {
        2 * self.cutoff * self.divisions
    }

    /// The number of bins: one between each two neighbouring boundaries.
    pub open spec fn bins(self) -> int {
        if self.count() == 0 {
            0
        } else {
            self.count() - 1
        }
    }

    /// Boundary `j`, counted from the lowest: the mean plus
    /// `j - cutoff * divisions` steps of a `divisions`-th of a deviation,
    /// rounded down.
    pub open spec fn boundary(self, j: int) -> int {
        self.mean + ((j - self.cutoff * self.divisions) * self.stddev) / (self.divisions as int)
    }

    /// Whether bin `i` holds the value `v`. Bins are numbered from 1; bin `i`
    /// lies between boundaries `i - 1` and `i`, and the last bin has no upper
    /// end.
    pub open spec fn holds(self, i: int, v: int) -> bool {
        &&& 1 <= i < self.count()
        &&& self.boundary(i - 1) <= v
        &&& (v < self.boundary(i) || i == self.count() - 1)
    }

    /// The first boundary from `j` on that lies above `v`, or the last
    /// boundary if none does.
    pub open spec fn scan(self, v: int, j: int) -> int
        decreases self.count() - j,
    {
        if j >= self.count() - 1 {
            j
        } else if v < self.boundary(j) {
            j
        } else {
            self.scan(v, j + 1)
        }
    }

    /// The index of the bin that holds `v`, or 0 if no bin does.
    pub open spec fn index_of(self, v: int) -> int {
        if self.count() == 0 {
            0
        } else {
            self.scan(v, 0)
        }
    }

    /// The frame for one axis of `stats`.
    pub fn new(stats: &Statistics, axis: Axis, cutoff: u8, divisions: u8) -> (grid: Binning)
        ensures
            grid == frame(*stats, axis, cutoff, divisions),
    {
        Binning {
            mean: stats.mean.coordinate(axis),
            stddev: stats.stddev.extent(axis),
            cutoff,
            divisions,
        }
    }

    /// Boundaries never decrease with their number.
    pub proof fn lemma_boundaries_ordered(self, j: int, k: int)
        requires
            self.divisions > 0,
            j <= k,
        ensures
            self.boundary(j) <= self.boundary(k),
    {
        let c = self.cutoff * self.divisions;
        lemma_mul_inequality(j - c, k - c, self.stddev as int);
        lemma_div_is_ordered((j - c) * self.stddev, (k - c) * self.stddev, self.divisions as int);
    }

    /// What `scan` finds: every boundary it passed is at or below the value,
    /// and the one it stopped at is above it, unless it is the last.
    pub proof fn lemma_scan(self, v: int, j: int)
        requires
            0 <= j <= self.count() - 1,
        ensures
            j <= self.scan(v, j) <= self.count() - 1,
            self.scan(v, j) < self.count() - 1 ==> v < self.boundary(self.scan(v, j)),
            forall|k: int| j <= k < self.scan(v, j) ==> self.boundary(k) <= v,
        decreases self.count() - j,
    {
        if j < self.count() - 1 && v >= self.boundary(j) {
            self.lemma_scan(v, j + 1);
        }
    }

    /// Every value is held by at most one bin, the one that `index_of`
    /// names; a value below the first boundary is held by none.
    pub proof fn lemma_index_is_the_bin(self, v: int, i: int)
        requires
            self.count() >= 2,
        ensures
            self.holds(i, v) <==> (i >= 1 && self.index_of(v) == i),
            self.index_of(v) == 0 <==> v < self.boundary(0),
            0 <= self.index_of(v) < self.count(),
    {
        let r = self.index_of(v);
        self.lemma_scan(v, 0);
        assert(self.divisions > 0) by (nonlinear_arith)
            requires
                2 * self.cutoff * self.divisions >= 2,
        ;
        if self.holds(i, v) {
            if r < i {
                self.lemma_boundaries_ordered(r, i - 1);
            } else if r > i {
                assert(self.boundary(i) <= v);
            }
        }
        if i >= 1 && r == i {
            assert(self.boundary(i - 1) <= v);
        }
        if v < self.boundary(0) {
            if r > 0 {
                assert(self.boundary(0) <= v);
            }
        }
    }

    /// The boundaries, lowest first.
    pub fn boundaries(&self) -> (edges: Vec<i128>)
        ensures
            edges@.len() == self.count(),
            forall|j: int| 0 <= j < self.count() ==> edges@[j] == self.boundary(j),
    {
        assert(self.cutoff * self.divisions <= 65025) by (nonlinear_arith)
            requires
                self.cutoff <= 255,
                self.divisions <= 255,
        ;
        let span: i128 = (self.cutoff as i128) * (self.divisions as i128);
        let total: usize = 2 * ((self.cutoff as usize) * (self.divisions as usize));
        assert(total == self.count()) by (nonlinear_arith)
            requires
                total == 2 * (self.cutoff * self.divisions),
                self.count() == 2 * self.cutoff * self.divisions,
        ;
        let mut edges: Vec<i128> = Vec::new();
        let mut j: usize = 0;
        while j < total
            invariant
                0 <= j <= total,
                total == self.count(),
                span == self.cutoff * self.divisions,
                edges@.len() == j,
                forall|k: int| 0 <= k < j ==> edges@[k] == self.boundary(k),
            decreases total - j,
        {
            let steps: i128 = j as i128 - span;
            assert(-0x1_0000 < steps < 0x2_0000) by (nonlinear_arith)
                requires
                    steps == j - self.cutoff * self.divisions,
                    0 <= j < 2 * self.cutoff * self.divisions,
                    self.cutoff <= 255,
                    self.divisions <= 255,
            ;
            assert(self.divisions > 0) by (nonlinear_arith)
                requires
                    0 <= j < 2 * self.cutoff * self.divisions,
            ;
            assert(-0x1_0000_0000_0000_0000_0000 < steps * self.stddev
                < 0x2_0000_0000_0000_0000_0000) by (nonlinear_arith)
                requires
                    -0x1_0000 < steps < 0x2_0000,
                    0 <= self.stddev <= 0xffff_ffff_ffff_ffff,
            ;
            let offset: i128 = div_floor(steps * (self.stddev as i128), self.divisions as i128);
            assert(-0x1_0000_0000_0000_0000_0000 <= offset < 0x2_0000_0000_0000_0000_0000)
                by (nonlinear_arith)
                requires
                    offset == (steps * self.stddev) / (self.divisions as int),
                    self.divisions > 0,
                    -0x1_0000_0000_0000_0000_0000 < steps * self.stddev
                        < 0x2_0000_0000_0000_0000_0000,
            ;
            edges.push(self.mean as i128 + offset);
            j = j + 1;
        }
        edges
    }
}

/// How many of `values` bin `i` holds.
pub open spec fn occupancy(values: Seq<int>, grid: Binning, i: int) -> nat
    decreases values.len(),
{
    if values.len() == 0 {
        0
    } else {
        occupancy(values.drop_last(), grid, i) + if grid.holds(i, values.last()) {
            1nat
        } else {
            0nat
        }
    }
}

/// How many of `values` are at or above `floor`.
pub open spec fn at_least(values: Seq<int>, floor: int) -> nat
    decreases values.len(),
{
    if values.len() == 0 {
        0
    } else {
        at_least(values.drop_last(), floor) + if values.last() >= floor {
            1nat
        } else {
            0nat
        }
    }
}

/// The occupancies of bins 1 to `upto`, added up.
pub open spec fn occupancy_sum(values: Seq<int>, grid: Binning, upto: int) -> nat
    decreases upto,
{
    if upto <= 0 {
        0
    } else {
        occupancy_sum(values, grid, upto - 1) + occupancy(values, grid, upto)
    }
}

/// The positions that some bin holds, in order, each with its bin's index.
pub open spec fn tagged(positions: Seq<Position>, axis: Axis, grid: Binning) -> Seq<
    (usize, Position),
>
    decreases positions.len(),
{
    if positions.len() == 0 {
        Seq::empty()
    } else {
        let rest = tagged(positions.drop_last(), axis, grid);
        let i = grid.index_of(positions.last().along(axis));
        if i >= 1 {
            rest.push((i as usize, positions.last()))
        } else {
            rest
        }
    }
}

/// How many of `tags` carry the index `i`.
pub open spec fn tally(tags: Seq<(usize, Position)>, i: int) -> nat
    decreases tags.len(),
{
    if tags.len() == 0 {
        0
    } else {
        tally(tags.drop_last(), i) + if tags.last().0 == i {
            1nat
        } else {
            0nat
        }
    }
}

/// The pairs of neighbouring boundaries, lowest first.
pub open spec fn boundary_pairs(grid: Binning) -> Seq<(i128, i128)> {
    Seq::new(
        grid.bins() as nat,
        |k: int| (grid.boundary(k) as i128, grid.boundary(k + 1) as i128),
    )
}

/// The counts of `bins`, added up.
pub open spec fn total_count(bins: Seq<HistogramBin>) -> nat
    decreases bins.len(),
{
    if bins.len() == 0 {
        0
    } else {
        total_count(bins.drop_last()) + bins.last().count as nat
    }
}

/// A bin holds no more values than there are.
pub proof fn lemma_occupancy_bounded(values: Seq<int>, grid: Binning, i: int)
    ensures
        occupancy(values, grid, i) <= values.len(),
    decreases values.len(),
{
    if values.len() > 0 {
        lemma_occupancy_bounded(values.drop_last(), grid, i);
    }
}

/// The tags with index `i` are as many as the values that bin `i` holds.
pub proof fn lemma_tally_is_occupancy(positions: Seq<Position>, axis: Axis, grid: Binning, i: int)
    requires
        grid.count() >= 2,
        1 <= i,
    ensures
        tally(tagged(positions, axis, grid), i) == occupancy(project(positions, axis), grid, i),
    decreases positions.len(),
{
    let values = project(positions, axis);
    if positions.len() > 0 {
        let rest = positions.drop_last();
        lemma_tally_is_occupancy(rest, axis, grid, i);
        assert(project(rest, axis) =~= values.drop_last());
        let v = positions.last().along(axis);
        assert(values.last() == v);
        grid.lemma_index_is_the_bin(v, i);
        let found = grid.index_of(v);
        if found >= 1 {
            let before = tagged(rest, axis, grid);
            let entry = (found as usize, positions.last());
            assert(before.push(entry).drop_last() =~= before);
            assert(130050 >= grid.count()) by (nonlinear_arith)
                requires
                    grid.count() == 2 * grid.cutoff * grid.divisions,
                    grid.cutoff <= 255,
                    grid.divisions <= 255,
            ;
        }
    }
}

/// Of one value, the bins 1 to `upto` hold it once if it lies between the
/// first boundary and boundary `upto`, and not at all otherwise.
proof fn lemma_one_value_sum(v: int, grid: Binning, upto: int)
    requires
        grid.count() >= 2,
        0 <= upto < grid.count(),
    ensures
        occupancy_sum(seq![v], grid, upto) == if 1 <= grid.index_of(v) <= upto {
            1nat
        } else {
            0nat
        },
    decreases upto,
{
    if upto > 0 {
        lemma_one_value_sum(v, grid, upto - 1);
        grid.lemma_index_is_the_bin(v, upto);
        reveal_with_fuel(occupancy, 2);
        assert(seq![v].drop_last() =~= Seq::<int>::empty());
        assert(seq![v].last() == v);
        assert(occupancy(seq![v], grid, upto) == if grid.holds(upto, v) {
            1nat
        } else {
            0nat
        });
    }
}

/// Adding up bin by bin commutes with taking one more value.
proof fn lemma_sum_step(values: Seq<int>, grid: Binning, upto: int)
    requires
        values.len() > 0,
    ensures
        occupancy_sum(values, grid, upto) == occupancy_sum(values.drop_last(), grid, upto)
            + occupancy_sum(seq![values.last()], grid, upto),
    decreases upto,
{
    if upto > 0 {
        lemma_sum_step(values, grid, upto - 1);
        let one = seq![values.last()];
        reveal_with_fuel(occupancy, 2);
        assert(one.drop_last() =~= Seq::<int>::empty());
        assert(one.last() == values.last());
        assert(occupancy(one, grid, upto) == if grid.holds(upto, values.last()) {
            1nat
        } else {
            0nat
        });
    }
}

/// The counts of all bins together are the number of values at or above
/// the first boundary: a value below it is in no bin, and every other value
/// is in exactly one.
pub proof fn lemma_bins_cover_values_from_first_boundary(values: Seq<int>, grid: Binning)
    requires
        grid.count() >= 2,
    ensures
        occupancy_sum(values, grid, grid.bins()) == at_least(values, grid.boundary(0)),
    decreases values.len(),
{
    if values.len() == 0 {
        assert(values =~= Seq::<int>::empty());
        lemma_sum_of_nothing(grid, grid.bins());
    } else {
        let v = values.last();
        let upto = grid.bins();
        lemma_bins_cover_values_from_first_boundary(values.drop_last(), grid);
        lemma_sum_step(values, grid, upto);
        lemma_one_value_sum(v, grid, upto);
        grid.lemma_index_is_the_bin(v, 0);
    }
}

proof fn lemma_sum_of_nothing(grid: Binning, upto: int)
    ensures
        occupancy_sum(Seq::<int>::empty(), grid, upto) == 0,
    decreases upto,
{
    if upto > 0 {
        lemma_sum_of_nothing(grid, upto - 1);
    }
}

/// The index of the bin that holds `v` among `edges`, or 0.
fn locate(grid: &Binning, edges: &Vec<i128>, v: i32) -> (i: usize)
    requires
        edges@.len() == grid.count(),
        forall|j: int| 0 <= j < grid.count() ==> edges@[j] == grid.boundary(j),
    ensures
        i == grid.index_of(v as int),
        i < edges@.len() || i == 0,
{
    if edges.len() == 0 {
        return 0;
    }
    let last: usize = edges.len() - 1;
    let mut j: usize = 0;
    while j < last && (v as i128) >= edges[j]
        invariant
            0 <= j <= last,
            last == grid.count() - 1,
            edges@.len() == grid.count(),
            forall|k: int| 0 <= k < grid.count() ==> edges@[k] == grid.boundary(k),
            grid.scan(v as int, 0) == grid.scan(v as int, j as int),
        decreases last - j,
    {
        j = j + 1;
    }
    j
}

/// Tags each position that a bin holds with the bin's index, and lists the
/// pairs of boundaries that the bins lie between.
///
/// Bin `i` lies between boundaries `i - 1` and `i`; positions below the first
/// boundary are left out, those at or above the last are in the last bin.
pub fn histogram(
    positions: &Vec<Position>,
    axis: Axis,
    stats: &Statistics,
    cutoff: u8,
    divisions: u8,
) -> (r: (Vec<(usize, Position)>, Vec<(i128, i128)>))
    ensures
        r.0@ == tagged(positions@, axis, frame(*stats, axis, cutoff, divisions)),
        r.1@ == boundary_pairs(frame(*stats, axis, cutoff, divisions)),
{
    let grid = Binning::new(stats, axis, cutoff, divisions);
    let edges = grid.boundaries();
    let mut tags: Vec<(usize, Position)> = Vec::new();
    let mut n: usize = 0;
    while n < positions.len()
        invariant
            0 <= n <= positions@.len(),
            edges@.len() == grid.count(),
            forall|j: int| 0 <= j < grid.count() ==> edges@[j] == grid.boundary(j),
            tags@ == tagged(positions@.take(n as int), axis, grid),
        decreases positions@.len() - n,
    {
        let p = positions[n];
        let i = locate(&grid, &edges, p.coordinate(axis));
        proof {
            let upto = positions@.take(n as int + 1);
            assert(upto.drop_last() =~= positions@.take(n as int));
            assert(upto.last() == p);
        }
        if i >= 1 {
            tags.push((i, p));
        }
        n = n + 1;
    }
    assert(positions@.take(n as int) =~= positions@);
    let mut pairs: Vec<(i128, i128)> = Vec::new();
    let bins: usize = if edges.len() == 0 {
        0
    } else {
        edges.len() - 1
    };
    let mut k: usize = 0;
    while k < bins
        invariant
            0 <= k <= bins,
            bins == grid.bins(),
            edges@.len() == grid.count(),
            forall|j: int| 0 <= j < grid.count() ==> edges@[j] == grid.boundary(j),
            pairs@.len() == k,
            forall|j: int| 0 <= j < k ==> pairs@[j] == (edges@[j], edges@[j + 1]),
        decreases edges@.len() - k,
    {
        pairs.push((edges[k], edges[k + 1]));
        k = k + 1;
    }
    assert(pairs@ =~= boundary_pairs(grid));
    (tags, pairs)
}

/// Counts the tags bin by bin: entry `i` of the result is the number of
/// tags with index `i`, for every `i` below `bins`.
pub fn histogram_val(tags: &Vec<(usize, Position)>, bins: usize) -> (counts: Vec<usize>)
    ensures
        counts@.len() == bins,
        forall|i: int| 0 <= i < bins ==> counts@[i] == tally(tags@, i),
{
    let mut counts: Vec<usize> = Vec::new();
    let mut i: usize = 0;
    while i < bins
        invariant
            0 <= i <= bins,
            counts@.len() == i,
            forall|j: int| 0 <= j < i ==> counts@[j] == 0,
        decreases bins - i,
    {
        counts.push(0);
        i = i + 1;
    }
    let mut n: usize = 0;
    while n < tags.len()
        invariant
            0 <= n <= tags@.len(),
            counts@.len() == bins,
            forall|j: int| 0 <= j < bins ==> counts@[j] == tally(tags@.take(n as int), j),
            forall|j: int| 0 <= j < bins ==> counts@[j] <= n,
        decreases tags@.len() - n,
    {
        let index = tags[n].0;
        proof {
            let upto = tags@.take(n as int + 1);
            assert(upto.drop_last() =~= tags@.take(n as int));
            assert(upto.last() == tags@[n as int]);
        }
        if index < bins {
            let seen = counts[index];
            counts.set(index, seen + 1);
        }
        n = n + 1;
    }
    assert(tags@.take(n as int) =~= tags@);
    counts
}

/// The histogram of the coordinates of `positions` along `axis`, framed by
/// the mean and standard deviation that `stats` gives for that axis.
///
/// There is one bin between each two neighbouring boundaries, lowest
/// first, numbered from 1. Coordinates below the first boundary are counted
/// nowhere; those at or above the last boundary are counted in the last bin.
pub fn build_histogram(
    positions: &Vec<Position>,
    axis: Axis,
    stats: &Statistics,
    cutoff: u8,
    divisions: u8,
) -> (bins: Vec<HistogramBin>)
    ensures
        bins@ == bins_of(project(positions@, axis), frame(*stats, axis, cutoff, divisions)),
        bins@.len() > 0 ==> total_count(bins@) == at_least(
            project(positions@, axis),
            frame(*stats, axis, cutoff, divisions).boundary(0),
        ),
{
    let ghost grid = frame(*stats, axis, cutoff, divisions);
    let ghost values = project(positions@, axis);
    assert(values.len() <= usize::MAX) by {
        assert(values.len() == positions.len());
    }
    let (tags, pairs) = histogram(positions, axis, stats, cutoff, divisions);
    assert(pairs@.len() <= 130050) by (nonlinear_arith)
        requires
            pairs@.len() <= 2 * cutoff * divisions,
            cutoff <= 255,
            divisions <= 255,
    ;
    let counts = histogram_val(&tags, pairs.len() + 1);
    let mut bins: Vec<HistogramBin> = Vec::new();
    let mut k: usize = 0;
    while k < pairs.len()
        invariant
            0 <= k <= pairs@.len(),
            pairs@ == boundary_pairs(grid),
            tags@ == tagged(positions@, axis, grid),
            values == project(positions@, axis),
            counts@.len() == pairs@.len() + 1,
            forall|i: int| 0 <= i < counts@.len() ==> counts@[i] == tally(tags@, i),
            bins@.len() == k,
            forall|j: int|
                0 <= j < k ==> {
                    &&& (#[trigger] bins@[j]).index == j + 1
                    &&& bins@[j].low == grid.boundary(j)
                    &&& bins@[j].high == grid.boundary(j + 1)
                    &&& bins@[j].count == occupancy(values, grid, j + 1)
                },
            grid == frame(*stats, axis, cutoff, divisions),
            values.len() <= usize::MAX,
            total_count(bins@) == occupancy_sum(values, grid, k as int),
        decreases pairs@.len() - k,
    {
        proof {
            lemma_tally_is_occupancy(positions@, axis, grid, k as int + 1);
            lemma_bins_of(values, grid, k as int);
        }
        let bin = HistogramBin {
            index: k + 1,
            low: pairs[k].0,
            high: pairs[k].1,
            count: counts[k + 1],
        };
        proof {
            assert(bins@.push(bin).drop_last() =~= bins@);
        }
        bins.push(bin);
        k = k + 1;
    }
    proof {
        if bins@.len() > 0 {
            lemma_bins_cover_values_from_first_boundary(values, grid);
        }
        assert forall|j: int| 0 <= j < bins@.len() implies bins@[j] == bins_of(values, grid)[j] by {
            lemma_bins_of(values, grid, j);
        }
        assert(bins@ =~= bins_of(values, grid));
    }
    bins
}

/// The bins of the histogram of `values` in the frame `grid`, lowest
/// first.
pub open spec fn bins_of(values: Seq<int>, grid: Binning) -> Seq<HistogramBin> {
    Seq::new(
        grid.bins() as nat,
        |k: int|
            HistogramBin {
                index: (k + 1) as usize,
                low: grid.boundary(k) as i128,
                high: grid.boundary(k + 1) as i128,
                count: occupancy(values, grid, k + 1) as usize,
            },
    )
}

/// What bin `k + 1` of a histogram holds, with nothing lost to the width of
/// the numbers: its index, the boundaries on either side, and the number of
/// values between them.
pub proof fn lemma_bins_of(values: Seq<int>, grid: Binning, k: int)
    requires
        0 <= k < grid.bins(),
        values.len() <= usize::MAX,
    ensures
        bins_of(values, grid)[k].index == k + 1,
        bins_of(values, grid)[k].low == grid.boundary(k),
        bins_of(values, grid)[k].high == grid.boundary(k + 1),
        bins_of(values, grid)[k].count == occupancy(values, grid, k + 1),
{
    lemma_boundary_fits(grid, k);
    lemma_boundary_fits(grid, k + 1);
    lemma_occupancy_bounded(values, grid, k + 1);
    assert(grid.count() <= 130050) by (nonlinear_arith)
        requires
            grid.count() == 2 * grid.cutoff * grid.divisions,
            grid.cutoff <= 255,
            grid.divisions <= 255,
    ;
}

proof fn lemma_boundary_fits(grid: Binning, j: int)
    requires
        0 <= j < grid.count(),
    ensures
        -0x2_0000_0000_0000_0000_0000 <= grid.boundary(j) <= 0x4_0000_0000_0000_0000_0000,
{
    let steps = j - grid.cutoff * grid.divisions;
    assert(-0x1_0000 < steps < 0x2_0000 && grid.divisions > 0) by (nonlinear_arith)
        requires
            steps == j - grid.cutoff * grid.divisions,
            0 <= j < 2 * grid.cutoff * grid.divisions,
            grid.cutoff <= 255,
            grid.divisions <= 255,
    ;
    assert(-0x1_0000_0000_0000_0000_0000 < steps * grid.stddev < 0x2_0000_0000_0000_0000_0000)
        by (nonlinear_arith)
        requires
            -0x1_0000 < steps < 0x2_0000,
            0 <= grid.stddev <= 0xffff_ffff_ffff_ffff,
    ;
    let offset = (steps * grid.stddev) / (grid.divisions as int);
    assert(-0x1_0000_0000_0000_0000_0000 <= offset < 0x2_0000_0000_0000_0000_0000)
        by (nonlinear_arith)
        requires
            offset == (steps * grid.stddev) / (grid.divisions as int),
            grid.divisions > 0,
            -0x1_0000_0000_0000_0000_0000 < steps * grid.stddev < 0x2_0000_0000_0000_0000_0000,
    ;
}

} // verus!
