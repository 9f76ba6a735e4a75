use gps_average::arith::{div_floor, isqrt};
use gps_average::position::{Axis, Position, Spread, Statistics};
use gps_average::stats::{compute_stats, StatisticsError};

fn along_latitude(values: &[i32]) -> Vec<Position> {
    values.iter().map(|&lat| Position { lat, lon: 0, alt: 0 }).collect()
}

#[test]
fn no_positions_have_no_statistics() {
    assert_eq!(compute_stats(&Vec::new()), Err(StatisticsError::Empty));
}

#[test]
fn one_position_is_its_own_mean_and_has_no_spread() {
    let only = Position { lat: 288_703_800, lon: 69_100_000, alt: 545_400 };
    assert_eq!(
        compute_stats(&vec![only]),
        Ok(Statistics { mean: only, stddev: Spread { lat: 0, lon: 0, alt: 0 } })
    );
}

#[test]
fn equal_positions_have_that_mean_and_no_spread() {
    let p = Position { lat: -202_512_300, lon: 424_050_000, alt: -12_500 };
    for n in [1usize, 2, 3, 10, 1000] {
        assert_eq!(
            compute_stats(&vec![p; n]),
            Ok(Statistics { mean: p, stddev: Spread { lat: 0, lon: 0, alt: 0 } }),
            "{n}"
        );
    }
    let far = Position { lat: i32::MIN, lon: i32::MAX, alt: -1 };
    assert_eq!(
        compute_stats(&vec![far; 7]),
        Ok(Statistics { mean: far, stddev: Spread { lat: 0, lon: 0, alt: 0 } })
    );
}

#[test]
fn the_deviation_is_the_rounded_down_sample_deviation() {
    // Mean 5; the squared distances add up to 32; 32 / 7 is 4; its root is 2.
    let stats = compute_stats(&along_latitude(&[2, 4, 4, 4, 5, 5, 7, 9])).unwrap();
    assert_eq!(stats.mean.lat, 5);
    assert_eq!(stats.stddev.lat, 2);
    // Mean 25; the squared distances add up to 500; 500 / 3 is 166; its root is 12.
    let stats = compute_stats(&along_latitude(&[10, 20, 30, 40])).unwrap();
    assert_eq!(stats.mean.lat, 25);
    assert_eq!(stats.stddev.lat, 12);
    let stats = compute_stats(&along_latitude(&[1, 2])).unwrap();
    assert_eq!((stats.mean.lat, stats.stddev.lat), (1, 1));
}

#[test]
fn the_mean_is_rounded_down() {
    assert_eq!(compute_stats(&along_latitude(&[1, 2])).unwrap().mean.lat, 1);
    assert_eq!(compute_stats(&along_latitude(&[-3, -4])).unwrap().mean.lat, -4);
    assert_eq!(compute_stats(&along_latitude(&[-1, 0])).unwrap().mean.lat, -1);
    assert_eq!(compute_stats(&along_latitude(&[-1, 1, 1])).unwrap().mean.lat, 0);
    assert_eq!(compute_stats(&along_latitude(&[-1, -1, 1])).unwrap().mean.lat, -1);
}

#[test]
fn the_axes_do_not_touch_each_other() {
    let positions = vec![
        Position { lat: 2, lon: -10, alt: 545_400 },
        Position { lat: 4, lon: -20, alt: 545_900 },
        Position { lat: 4, lon: -30, alt: 544_900 },
    ];
    let stats = compute_stats(&positions).unwrap();
    assert_eq!(stats.mean, Position { lat: 3, lon: -20, alt: 545_400 });
    assert_eq!(stats.stddev, Spread { lat: 1, lon: 10, alt: 500 });
    assert_eq!(stats.mean.coordinate(Axis::Latitude), 3);
    assert_eq!(stats.mean.coordinate(Axis::Longitude), -20);
    assert_eq!(stats.mean.coordinate(Axis::Altitude), 545_400);
    assert_eq!(stats.stddev.extent(Axis::Latitude), 1);
    assert_eq!(stats.stddev.extent(Axis::Longitude), 10);
    assert_eq!(stats.stddev.extent(Axis::Altitude), 500);
}

#[test]
fn the_widest_coordinates_do_not_overflow() {
    let stats = compute_stats(&along_latitude(&[i32::MIN, i32::MAX])).unwrap();
    assert_eq!((stats.mean.lat, stats.stddev.lat), (-1, 3_037_000_499));
    let mut values = vec![i32::MIN; 3];
    values.extend([i32::MAX; 3]);
    let stats = compute_stats(&along_latitude(&values)).unwrap();
    assert_eq!((stats.mean.lat, stats.stddev.lat), (-1, 2_352_450_471));
}

#[test]
fn square_roots_are_rounded_down() {
    assert_eq!(isqrt(0), 0);
    assert_eq!(isqrt(1), 1);
    assert_eq!(isqrt(2), 1);
    assert_eq!(isqrt(3), 1);
    assert_eq!(isqrt(4), 2);
    assert_eq!(isqrt(15), 3);
    assert_eq!(isqrt(16), 4);
    assert_eq!(isqrt(17), 4);
    assert_eq!(isqrt(1_000_000), 1_000);
    assert_eq!(isqrt(999_999), 999);
    assert_eq!(isqrt(u128::MAX), u64::MAX);
    assert_eq!(isqrt(u128::from(u64::MAX) * u128::from(u64::MAX)), u64::MAX);
    assert_eq!(isqrt(u128::from(u64::MAX) * u128::from(u64::MAX) - 1), u64::MAX - 1);
}

#[test]
fn division_is_rounded_down() {
    assert_eq!(div_floor(7, 2), 3);
    assert_eq!(div_floor(-7, 2), -4);
    assert_eq!(div_floor(-8, 2), -4);
    assert_eq!(div_floor(-1, 6), -1);
    assert_eq!(div_floor(0, 6), 0);
    assert_eq!(div_floor(5, 6), 0);
    assert_eq!(div_floor(-6, 6), -1);
}
