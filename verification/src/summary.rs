//! The whole analysis of a set of positions.
//!
//! The statistics of all positions frame the histograms and decide which
//! positions are kept; the statistics of the kept positions are the ones to
//! report.
use vstd::prelude::*;
use crate::filter::{filter_outliers, retained, DEFAULT_SIGMAS};
use crate::histogram::{
    bins_of, build_histogram, frame, HistogramBin, DEFAULT_CUTOFF, DEFAULT_DIVISIONS,
};
use crate::position::{project, Axis, Position, Statistics};
use crate::stats::{compute_stats, statistics_of, StatisticsError};

verus! {

/// What is known of a set of positions.
#[derive(Debug, PartialEq, Eq)]
pub struct Summary {
    /// The number of positions.
    pub total: usize,
    /// The statistics of all the positions.
    pub overall: Statistics,
    /// The positions within three standard deviations of the overall mean.
    pub kept: Vec<Position>,
    /// The statistics of the kept positions.
    pub filtered: Statistics,
    /// The histogram of all latitudes, framed by the overall statistics.
    pub latitude: Vec<HistogramBin>,
    /// The histogram of all longitudes, framed by the overall statistics.
    pub longitude: Vec<HistogramBin>,
    /// The histogram of all altitudes, framed by the overall statistics.
    pub altitude: Vec<HistogramBin>,
}

/// The positions that are kept of `positions`.
pub open spec fn kept_of(positions: Seq<Position>) -> Seq<Position> {
    retained(positions, statistics_of(positions), DEFAULT_SIGMAS as int)
}

/// The histogram of all of `positions` along `axis`.
pub open spec fn histogram_of(positions: Seq<Position>, axis: Axis) -> Seq<HistogramBin> {
    bins_of(
        project(positions, axis),
        frame(statistics_of(positions), axis, DEFAULT_CUTOFF, DEFAULT_DIVISIONS),
    )
}

/// Analyses `positions`: their statistics, their histograms along the three
/// axes, the positions that lie within three standard deviations of the
/// mean along every axis, and the statistics of those.
///
/// Fails if there are no positions, or if none is kept.
pub fn summarize(positions: &Vec<Position>) -> (r: Result<Summary, StatisticsError>)
    ensures
        r is Err <==> positions@.len() == 0 || kept_of(positions@).len() == 0,
        r matches Err(e) ==> e == StatisticsError::Empty,
        r matches Ok(s) ==> {
            &&& s.total == positions@.len()
            &&& s.overall == statistics_of(positions@)
            &&& s.kept@ == kept_of(positions@)
            &&& s.filtered == statistics_of(s.kept@)
            &&& s.latitude@ == histogram_of(positions@, Axis::Latitude)
            &&& s.longitude@ == histogram_of(positions@, Axis::Longitude)
            &&& s.altitude@ == histogram_of(positions@, Axis::Altitude)
        },
{
    let overall = match compute_stats(positions) {
        Ok(stats) => stats,
        Err(e) => {
            return Err(e);
        },
    };
    let latitude = build_histogram(
        positions,
        Axis::Latitude,
        &overall,
        DEFAULT_CUTOFF,
        DEFAULT_DIVISIONS,
    );
    let longitude = build_histogram(
        positions,
        Axis::Longitude,
        &overall,
        DEFAULT_CUTOFF,
        DEFAULT_DIVISIONS,
    );
    let altitude = build_histogram(
        positions,
        Axis::Altitude,
        &overall,
        DEFAULT_CUTOFF,
        DEFAULT_DIVISIONS,
    );
    let kept = filter_outliers(positions, &overall, DEFAULT_SIGMAS);
    let filtered = match compute_stats(&kept) {
        Ok(stats) => stats,
        Err(e) => {
            return Err(e);
        },
    };
    Ok(Summary { total: positions.len(), overall, kept, filtered, latitude, longitude, altitude })
}

} // verus!
