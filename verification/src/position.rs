//! Fixed-point positions and the statistics derived from them.
//!
//! Latitude and longitude are counted in hundred-thousandths of an arc
//! minute, so that a `DDMM.MMMMM` reading is held without rounding; altitude
//! is counted in millimetres. South and west are negative.
use vstd::prelude::*;

verus! {

/// Latitude and longitude units in one arc minute.
pub const UNITS_PER_MINUTE: i32 = 100_000;

/// Latitude and longitude units in one degree.
pub const UNITS_PER_DEGREE: i32 = 6_000_000;

/// Altitude units in one metre.
pub const UNITS_PER_METRE: i32 = 1_000;

/// One of the three coordinates of a position.
#[derive(Clone, Copy, Debug, PartialEq, Eq, Structural)]
pub enum Axis {
    Latitude,
    Longitude,
    Altitude,
}

/// A geodetic position: latitude, longitude and altitude.
#[derive(Clone, Copy, Debug, PartialEq, Eq, Structural)]
pub struct Position {
    pub lat: i32,
    pub lon: i32,
    pub alt: i32,
}

/// A non-negative extent along each axis, in the units of [`Position`].
#[derive(Clone, Copy, Debug, PartialEq, Eq, Structural)]
pub struct Spread {
    pub lat: u64,
    pub lon: u64,
    pub alt: u64,
}

/// Mean and standard deviation of a set of positions, axis by axis.
#[derive(Clone, Copy, Debug, PartialEq, Eq, Structural)]
pub struct Statistics {
    pub mean: Position,
    pub stddev: Spread,
}

impl Position {
    /// The coordinate along `axis`.
    pub open spec fn along(self, axis: Axis) -> int {
        match axis {
            Axis::Latitude => self.lat as int,
            Axis::Longitude => self.lon as int,
            Axis::Altitude => self.alt as int,
        }
    }

    /// The coordinate along `axis`.
    pub fn coordinate(&self, axis: Axis) -> (r: i32)
        ensures
            r == self.along(axis),
    {
        match axis {
            Axis::Latitude => self.lat,
            Axis::Longitude => self.lon,
            Axis::Altitude => self.alt,
        }
    }
}

impl Spread {
    /// The extent along `axis`.
    pub open spec fn along(self, axis: Axis) -> int {
        match axis {
            Axis::Latitude => self.lat as int,
            Axis::Longitude => self.lon as int,
            Axis::Altitude => self.alt as int,
        }
    }

    /// The extent along `axis`.
    pub fn extent(&self, axis: Axis) -> (r: u64)
        ensures
            r == self.along(axis),
    {
        match axis {
            Axis::Latitude => self.lat,
            Axis::Longitude => self.lon,
            Axis::Altitude => self.alt,
        }
    }
}

/// The coordinates of `positions` along `axis`, in order.
pub open spec fn project(positions: Seq<Position>, axis: Axis) -> Seq<int> {
    Seq::new(positions.len(), |i: int| positions[i].along(axis))
}

} // verus!
