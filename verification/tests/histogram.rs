use gps_average::histogram::{
    build_histogram, histogram, histogram_val, Binning, HistogramBin, DEFAULT_CUTOFF,
    DEFAULT_DIVISIONS,
};
use gps_average::position::{Axis, Position, Spread, Statistics};

fn along_altitude(values: &[i32]) -> Vec<Position> {
    values.iter().map(|&alt| Position { lat: 0, lon: 0, alt }).collect()
}

fn frame(mean: i32, spread: u64) -> Statistics {
    Statistics {
        mean: Position { lat: 1_000, lon: -1_000, alt: mean },
        stddev: Spread { lat: 1, lon: 2, alt: spread },
    }
}

#[test]
fn the_default_frame_has_thirty_six_boundaries_and_thirty_five_bins() {
    assert_eq!((DEFAULT_CUTOFF, DEFAULT_DIVISIONS), (3, 6));
    let grid = Binning::new(&frame(0, 6), Axis::Altitude, DEFAULT_CUTOFF, DEFAULT_DIVISIONS);
    assert_eq!(grid, Binning { mean: 0, stddev: 6, cutoff: 3, divisions: 6 });
    let edges = grid.boundaries();
    assert_eq!(edges.len(), 36);
    assert_eq!(edges, (-18..18).map(i128::from).collect::<Vec<i128>>());
    let bins = build_histogram(&Vec::new(), Axis::Altitude, &frame(0, 6), 3, 6);
    assert_eq!(bins.len(), 35);
}

#[test]
fn boundaries_step_by_a_sixth_of_a_deviation_from_three_below_the_mean() {
    let grid = Binning::new(&frame(545_400, 600), Axis::Altitude, 3, 6);
    let edges = grid.boundaries();
    assert_eq!(edges[0], 545_400 - 1_800);
    assert_eq!(edges[1], 545_400 - 1_700);
    assert_eq!(edges[18], 545_400);
    assert_eq!(edges[35], 545_400 + 1_700);
}

#[test]
fn boundaries_are_rounded_down() {
    let grid = Binning::new(&frame(0, 4), Axis::Altitude, 2, 3);
    // Steps of 4 / 3 from -8: -8, -6.67, -5.33, -4, ...
    assert_eq!(grid.boundaries(), vec![-8, -7, -6, -4, -3, -2, 0, 1, 2, 4, 5, 6]);
}

#[test]
fn each_axis_uses_its_own_mean_and_deviation() {
    let stats = frame(0, 6);
    assert_eq!(Binning::new(&stats, Axis::Latitude, 3, 6).boundaries()[0], 1_000 - 3);
    assert_eq!(Binning::new(&stats, Axis::Longitude, 3, 6).boundaries()[0], -1_000 - 6);
    assert_eq!(Binning::new(&stats, Axis::Altitude, 3, 6).boundaries()[0], -18);
}

#[test]
fn values_are_counted_between_their_boundaries() {
    let values = [-19, -18, -17, 0, 0, 1, 16, 17, 18, 100];
    let bins = build_histogram(&along_altitude(&values), Axis::Altitude, &frame(0, 6), 3, 6);
    assert_eq!(bins.len(), 35);
    for (k, bin) in bins.iter().enumerate() {
        assert_eq!(bin.index, k + 1);
        assert_eq!(bin.low, k as i128 - 18);
        assert_eq!(bin.high, k as i128 - 17);
        let expected = match bin.index {
            1 => 1,
            2 => 1,
            19 => 2,
            20 => 1,
            35 => 4,
            _ => 0,
        };
        assert_eq!(bin.count, expected, "bin {}", bin.index);
    }
}

#[test]
fn values_below_the_first_boundary_are_counted_nowhere() {
    let values = [-19, -100, i32::MIN];
    let bins = build_histogram(&along_altitude(&values), Axis::Altitude, &frame(0, 6), 3, 6);
    assert!(bins.iter().all(|bin| bin.count == 0));
}

#[test]
fn values_above_the_last_boundary_are_counted_in_the_last_bin() {
    let values = [17, 18, 1_000, i32::MAX];
    let bins = build_histogram(&along_altitude(&values), Axis::Altitude, &frame(0, 6), 3, 6);
    assert_eq!(bins[34], HistogramBin { index: 35, low: 16, high: 17, count: 4 });
    assert!(bins[..34].iter().all(|bin| bin.count == 0));
}

#[test]
fn the_counts_add_up_to_the_values_from_the_first_boundary_on() {
    let stats = frame(545_400, 777);
    let values: Vec<i32> = (0..5_000).map(|i| 545_400 + (i * 7_919) % 6_001 - 3_000).collect();
    let bins = build_histogram(&along_altitude(&values), Axis::Altitude, &stats, 3, 6);
    let first = bins[0].low;
    let counted: usize = bins.iter().map(|bin| bin.count).sum();
    let expected = values.iter().filter(|&&v| i128::from(v) >= first).count();
    assert_eq!(counted, expected);
    assert!(expected < values.len());
    for window in bins.windows(2) {
        assert_eq!(window[0].high, window[1].low);
        assert_eq!(window[0].index + 1, window[1].index);
    }
}

#[test]
fn a_small_frame() {
    let values = [-30, -7, -6, -1, 0, 5, 6, 100];
    let bins = build_histogram(&along_altitude(&values), Axis::Altitude, &frame(0, 4), 2, 3);
    let expected = [
        (1, -8, -7, 0),
        (2, -7, -6, 1),
        (3, -6, -4, 1),
        (4, -4, -3, 0),
        (5, -3, -2, 0),
        (6, -2, 0, 1),
        (7, 0, 1, 1),
        (8, 1, 2, 0),
        (9, 2, 4, 0),
        (10, 4, 5, 0),
        (11, 5, 6, 3),
    ];
    assert_eq!(
        bins,
        expected
            .iter()
            .map(|&(index, low, high, count)| HistogramBin { index, low, high, count })
            .collect::<Vec<_>>()
    );
    let bins = build_histogram(&along_altitude(&[3, -7]), Axis::Altitude, &frame(-1, 5), 1, 1);
    assert_eq!(bins, vec![HistogramBin { index: 1, low: -6, high: -1, count: 1 }]);
}

#[test]
fn without_spread_values_from_the_mean_on_are_in_the_last_bin() {
    let bins = build_histogram(&along_altitude(&[1, 5, 5, 7]), Axis::Altitude, &frame(5, 0), 3, 6);
    assert_eq!(bins.len(), 35);
    assert!(bins.iter().all(|bin| bin.low == 5 && bin.high == 5));
    assert_eq!(bins[34].count, 3);
    assert!(bins[..34].iter().all(|bin| bin.count == 0));
}

#[test]
fn no_cutoff_or_no_divisions_give_no_bins() {
    let positions = along_altitude(&[1, 2, 3]);
    assert_eq!(build_histogram(&positions, Axis::Altitude, &frame(2, 1), 0, 6), Vec::new());
    assert_eq!(build_histogram(&positions, Axis::Altitude, &frame(2, 1), 3, 0), Vec::new());
    assert_eq!(Binning::new(&frame(2, 1), Axis::Altitude, 3, 0).boundaries(), Vec::new());
    let (tags, pairs) = histogram(&positions, Axis::Altitude, &frame(2, 1), 0, 0);
    assert_eq!(tags, Vec::new());
    assert_eq!(pairs, Vec::new());
}

#[test]
fn the_widest_frame_does_not_overflow() {
    let stats = Statistics {
        mean: Position { lat: 0, lon: 0, alt: i32::MIN },
        stddev: Spread { lat: 0, lon: 0, alt: u64::MAX },
    };
    let bins = build_histogram(&along_altitude(&[0]), Axis::Altitude, &stats, 255, 255);
    assert_eq!(bins.len(), 2 * 255 * 255 - 1);
    assert_eq!(bins[0].low, i128::from(i32::MIN) - 255 * i128::from(u64::MAX));
    assert_eq!(bins.iter().map(|bin| bin.count).sum::<usize>(), 1);
}

#[test]
fn positions_are_tagged_with_their_bins_in_order() {
    let positions = along_altitude(&[100, -19, 0, -18, 17, 1]);
    let (tags, pairs) = histogram(&positions, Axis::Altitude, &frame(0, 6), 3, 6);
    assert_eq!(
        tags,
        vec![
            (35, positions[0]),
            (19, positions[2]),
            (1, positions[3]),
            (35, positions[4]),
            (20, positions[5]),
        ]
    );
    assert_eq!(pairs.len(), 35);
    assert_eq!(pairs[0], (-18, -17));
    assert_eq!(pairs[34], (16, 17));
}

#[test]
fn tags_are_counted_bin_by_bin() {
    let p = Position { lat: 0, lon: 0, alt: 0 };
    let tags = vec![(3, p), (1, p), (3, p), (5, p), (3, p), (9, p)];
    assert_eq!(histogram_val(&tags, 6), vec![0, 1, 0, 3, 0, 1]);
    assert_eq!(histogram_val(&tags, 0), Vec::new());
    assert_eq!(histogram_val(&Vec::new(), 3), vec![0, 0, 0]);
}
