//! Averaging the fixes of a GPS log.
//!
//! A log is a text of NMEA sentences, one to a line. [`log::parse_file`]
//! reads the position out of each fix sentence, [`stats::compute_stats`]
//! gives the mean and the standard deviation of a set of positions,
//! [`filter::filter_outliers`] drops the positions far from the mean, and
//! [`histogram::build_histogram`] counts the coordinates of one axis in
//! bins around the mean. [`summary::summarize`] runs them in that order.
//!
//! All numbers are whole. A position holds its latitude and longitude in
//! hundred-thousandths of an arc minute and its altitude in millimetres, so
//! that a coordinate written with up to five decimal places of a minute is
//! held as written. Means, deviations and bin boundaries are in the same
//! units and rounded down.
use vstd::prelude::*;

pub mod arith;
pub mod filter;
pub mod histogram;
pub mod log;
pub mod position;
pub mod sentence;
pub mod stats;
pub mod summary;
pub mod text;

verus! {

} // verus!
