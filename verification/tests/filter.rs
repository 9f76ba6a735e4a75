use gps_average::filter::{filter_outliers, is_within, DEFAULT_SIGMAS};
use gps_average::position::{Position, Spread, Statistics};
use gps_average::stats::compute_stats;

fn around(mean: Position, spread: u64) -> Statistics {
    Statistics { mean, stddev: Spread { lat: spread, lon: spread, alt: spread } }
}

#[test]
fn one_far_position_among_a_thousand_is_the_one_removed() {
    let centre = Position { lat: 288_703_800, lon: 69_100_000, alt: 545_400 };
    let mut positions: Vec<Position> = (0..1000)
        .map(|i| Position {
            lat: centre.lat + (i % 21) - 10,
            lon: centre.lon + (i % 13) - 6,
            alt: centre.alt + (i % 7) - 3,
        })
        .collect();
    let cluster = compute_stats(&positions).unwrap();
    assert_eq!(cluster.stddev.lat, 6);
    let outlier = Position {
        lat: cluster.mean.lat + 100 * 6,
        lon: cluster.mean.lon,
        alt: cluster.mean.alt,
    };
    positions.insert(500, outlier);
    let stats = compute_stats(&positions).unwrap();
    let kept = filter_outliers(&positions, &stats, DEFAULT_SIGMAS);
    assert_eq!(kept.len(), 1000);
    assert!(!kept.contains(&outlier));
    let mut expected = positions.clone();
    expected.remove(500);
    assert_eq!(kept, expected);
}

#[test]
fn three_deviations_is_the_default() {
    assert_eq!(DEFAULT_SIGMAS, 3);
}

#[test]
fn positions_just_at_the_limit_are_removed() {
    let stats = around(Position { lat: 100, lon: 200, alt: 300 }, 10);
    let inside = Position { lat: 129, lon: 171, alt: 300 };
    let at_upper = Position { lat: 130, lon: 200, alt: 300 };
    let at_lower = Position { lat: 100, lon: 170, alt: 300 };
    let beyond = Position { lat: 100, lon: 200, alt: 331 };
    assert!(is_within(&inside, &stats, 3));
    assert!(!is_within(&at_upper, &stats, 3));
    assert!(!is_within(&at_lower, &stats, 3));
    assert!(!is_within(&beyond, &stats, 3));
    assert_eq!(
        filter_outliers(&vec![at_upper, inside, at_lower, beyond, inside], &stats, 3),
        vec![inside, inside]
    );
}

#[test]
fn every_axis_must_be_within() {
    let stats = Statistics {
        mean: Position { lat: 0, lon: 0, alt: 0 },
        stddev: Spread { lat: 1, lon: 10, alt: 100 },
    };
    assert!(is_within(&Position { lat: 2, lon: 29, alt: 299 }, &stats, 3));
    assert!(is_within(&Position { lat: -2, lon: -29, alt: -299 }, &stats, 3));
    assert!(!is_within(&Position { lat: 3, lon: 0, alt: 0 }, &stats, 3));
    assert!(!is_within(&Position { lat: 0, lon: -30, alt: 0 }, &stats, 3));
    assert!(!is_within(&Position { lat: 0, lon: 0, alt: 300 }, &stats, 3));
}

#[test]
fn the_number_of_deviations_can_be_chosen() {
    let stats = around(Position { lat: 0, lon: 0, alt: 0 }, 10);
    let p = Position { lat: 15, lon: 0, alt: 0 };
    assert!(!is_within(&p, &stats, 0));
    assert!(!is_within(&p, &stats, 1));
    assert!(is_within(&p, &stats, 2));
    assert!(is_within(&p, &stats, u32::MAX));
}

#[test]
fn without_spread_nothing_is_kept() {
    let p = Position { lat: 7, lon: 8, alt: 9 };
    let stats = compute_stats(&vec![p, p, p]).unwrap();
    assert_eq!(filter_outliers(&vec![p, p, p], &stats, 3), Vec::new());
}

#[test]
fn the_widest_statistics_do_not_overflow() {
    let stats = Statistics {
        mean: Position { lat: i32::MAX, lon: i32::MIN, alt: 0 },
        stddev: Spread { lat: u64::MAX, lon: u64::MAX, alt: u64::MAX },
    };
    let p = Position { lat: i32::MIN, lon: i32::MAX, alt: i32::MIN };
    assert!(is_within(&p, &stats, u32::MAX));
    assert_eq!(filter_outliers(&vec![p], &stats, 1), vec![p]);
}
