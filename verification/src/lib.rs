//! Verified core of a weight-tracking chart generator.
//!
//! The library ingests a line-oriented log of timestamped body-weight
//! measurements, tolerates malformed records, groups the valid readings by
//! calendar year and by year + month, and computes everything a renderer
//! needs to draw time-series charts: dot and line coordinates, a windowed
//! trend line, min/max/average markers and axis labels.  Weights are held as
//! fixed-point values in thousandths of a unit, timestamps as plain calendar
//! fields, so every step of the pipeline is verified.

pub mod dates;
pub mod model;
pub mod numfmt;
pub mod parse;
pub mod plot;
pub mod run;
pub mod agg;
pub mod sort;
pub mod trend;
