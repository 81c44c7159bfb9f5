//! A waypoint source for a navigation loop.
//!
//! The library turns the text of a geospatial document into an ordered list
//! of waypoints and drives a cursor over that list: a controller asks for the
//! current target each cycle, checks whether it has been reached, and advances
//! the cursor one waypoint at a time until every target has been consumed.
//!
//! Coordinates are plain fixed-point values: one unit is split into
//! 1_000_000 micro-units, so `37.4` degrees is stored as `37_400_000`.
//! Unpacking the archive that holds the document and reading it from disk are
//! left to the caller; the library works on the document bytes alone.

use vstd::prelude::*;

pub mod generator;
pub mod parser;

verus! {

/// How many micro-units make one coordinate unit.
pub const MICRO_PER_UNIT: i64 = 1_000_000;

/// A single navigation target: a latitude and a longitude, each in
/// fixed-point micro-units (`MICRO_PER_UNIT` micro-units per degree).
///
/// The payload of a coordinate block writes each token longitude first,
/// but a waypoint stores latitude first; the parser performs that swap.
#[derive(Clone, Copy, Debug, PartialEq, Eq, Structural)]
pub struct Waypoint {
    pub latitude: i64,
    pub longitude: i64,
}

/// Why a waypoint source could not be built.
#[derive(Clone, Copy, Debug, PartialEq, Eq, Structural)]
pub enum WaypointError {
    /// The source path does not exist or is not a regular file.
    NotFound,
    /// The external decompression step could not run or failed.
    ExtractionFailed,
    /// No inner document was found after extraction.
    DocumentNotFound,
    /// The inner document exists but could not be read.
    DocumentUnreadable,
    /// Parsing finished but produced no usable waypoint.
    EmptyWaypointList,
}

} // verus!
