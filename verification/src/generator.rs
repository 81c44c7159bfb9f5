//! The waypoint-generator contract and its file-backed implementation.
//!
//! A waypoint generator owns an ordered list of targets and a cursor. The
//! controller reads the current target each cycle, checks whether it has
//! been reached, and advances the cursor when it decides to; the cursor only
//! ever moves forward, one waypoint at a time, and stops at the end.

use vstd::prelude::*;

use crate::Waypoint;
use crate::WaypointError;
use crate::parser::document_waypoints;
use crate::parser::parse_document;

verus! {

/// Arrival tolerance in micro-units: a target counts as reached when the
/// squared planar distance to it is at most the square of this value
/// (the comparison is inclusive).
pub const ARRIVAL_TOLERANCE: i64 = 1_000_000;

/// The position `(x_m, y_m)` is within the arrival tolerance of the target
/// `(tx, ty)`, tolerance boundary included.
pub open spec fn within_tolerance(x_m: int, y_m: int, tx: int, ty: int) -> bool {
    (x_m - tx) * (x_m - tx) + (y_m - ty) * (y_m - ty) <= ARRIVAL_TOLERANCE * ARRIVAL_TOLERANCE
}

/// Where the cursor stands after one advance: one step forward while targets
/// remain, unchanged once every waypoint has been consumed.
pub open spec fn advanced_cursor(cursor: int, len: int) -> int {
    if cursor < len {
        cursor + 1
    } else {
        cursor
    }
}

/// The cursor after `n` advances from the initial state of a list of `len`
/// waypoints.
pub open spec fn advanced_times(len: int, n: nat) -> int
    decreases n,
{
    if n == 0 {
        0
    } else {
        advanced_cursor(advanced_times(len, (n - 1) as nat), len)
    }
}

/// Law: as long as targets remain, each advance moves the cursor exactly one
/// step, so `n` advances from the initial state stand at cursor `n`.
pub proof fn lemma_advances_within_list(len: int, n: nat)
    requires
        n <= len,
    ensures
        advanced_times(len, n) == n,
    decreases n,
{
    if n > 0 {
        lemma_advances_within_list(len, (n - 1) as nat);
    }
}

/// Law: `len` advances from the initial state consume every waypoint and
/// reach the terminal cursor, and any further advance leaves the cursor
/// there — the terminal state absorbs advances.
pub proof fn lemma_advances_reach_done(len: nat, extra: nat)
    ensures
        advanced_times(len as int, len) == len,
        advanced_times(len as int, len + extra) == len,
    decreases extra,
{
    lemma_advances_within_list(len as int, len);
    if extra > 0 {
        lemma_advances_reach_done(len, (extra - 1) as nat);
    }
}

/// What any waypoint source promises: an ordered waypoint list behind a
/// forward-only cursor, pure observers, and a bounded advance.
pub trait WaypointGenerator: Sized {
    /// The ordered waypoint list the source traverses.
    spec fn waypoints(&self) -> Seq<Waypoint>;

    /// The index of the current target; equal to the list length once every
    /// waypoint has been consumed.
    spec fn cursor(&self) -> int;

    /// The source's internal invariant.
    spec fn inv(&self) -> bool;

    /// The target steered toward from position `(x_m, y_m)`, as a
    /// latitude-longitude pair in micro-units. A source with a coordinate
    /// frame transform may let it differ from the stored waypoint; one
    /// without returns the stored waypoint unchanged.
    spec fn target(&self, x_m: i64, y_m: i64) -> (int, int);

    /// The current target in the frame the controller steers in.
    fn get_current_waypoint(&self, x_m: i64, y_m: i64) -> (r: (i64, i64))
        requires
            self.inv(),
            self.cursor() < self.waypoints().len(),
        ensures
            (r.0 as int, r.1 as int) == self.target(x_m, y_m),
    ;

    /// The stored coordinate of the current target, ignoring any frame
    /// transform.
    fn get_current_raw_waypoint(&self, x_m: i64, y_m: i64) -> (r: (i64, i64))
        requires
            self.inv(),
            self.cursor() < self.waypoints().len(),
        ensures
            r.0 == self.waypoints()[self.cursor()].latitude,
            r.1 == self.waypoints()[self.cursor()].longitude,
    ;

    /// Moves on to the next waypoint; at the terminal position it changes
    /// nothing. The list itself never changes.
    fn next(&mut self)
        requires
            old(self).inv(),
        ensures
            final(self).inv(),
            final(self).waypoints() == old(self).waypoints(),
            final(self).cursor() == advanced_cursor(
                old(self).cursor(),
                old(self).waypoints().len() as int,
            ),
    ;

    /// Whether the position `(x_m, y_m)` is within the arrival tolerance of
    /// the current target, boundary included.
    fn reached(&self, x_m: i64, y_m: i64) -> (r: bool)
        requires
            self.inv(),
            self.cursor() < self.waypoints().len(),
        ensures
            r == within_tolerance(
                x_m as int,
                y_m as int,
                self.target(x_m, y_m).0,
                self.target(x_m, y_m).1,
            ),
    ;

    /// Whether every waypoint has been consumed.
    fn done(&self) -> (r: bool)
        requires
            self.inv(),
        ensures
            r == (self.cursor() == self.waypoints().len()),
    ;
}

/// A waypoint generator backed by the waypoint list of a geospatial
/// document. It applies no coordinate frame transform, so the steering
/// target always equals the stored waypoint.
#[derive(Debug)]
pub struct KmlWaypointGenerator {
    waypoints: Vec<Waypoint>,
    current_waypoint: usize,
}

impl KmlWaypointGenerator {
    /// Builds a generator over an already-parsed waypoint list.
    ///
    /// A generator must never exist in an unusable state, so an empty list
    /// is rejected rather than stored.
    pub fn from_waypoints(waypoints: Vec<Waypoint>) -> (r: Result<KmlWaypointGenerator,
        WaypointError>)
        ensures
            waypoints@.len() == 0 ==> r == Result::<KmlWaypointGenerator, WaypointError>::Err(
                WaypointError::EmptyWaypointList,
            ),
            waypoints@.len() > 0 ==> r is Ok && r->Ok_0.inv() && r->Ok_0.waypoints() == waypoints@
                && r->Ok_0.cursor() == 0,
    {
        if waypoints.len() == 0 {
            Err(WaypointError::EmptyWaypointList)
        } else {
            Ok(KmlWaypointGenerator { waypoints, current_waypoint: 0 })
        }
    }

    /// Builds a generator from the bytes of a geospatial document.
    ///
    /// Construction succeeds exactly when the document's payload holds at
    /// least one well-formed coordinate token; a document without a marker,
    /// or whose payload yields nothing, is rejected as empty.
    pub fn from_document(doc: &Vec<u8>) -> (r: Result<KmlWaypointGenerator, WaypointError>)
        ensures
            document_waypoints(doc@).len() == 0 ==> r == Result::<KmlWaypointGenerator,
                WaypointError,
            >::Err(WaypointError::EmptyWaypointList),
            document_waypoints(doc@).len() > 0 ==> r is Ok && r->Ok_0.inv()
                && r->Ok_0.waypoints() == document_waypoints(doc@) && r->Ok_0.cursor() == 0,
    {
        let waypoints = parse_document(doc);
        KmlWaypointGenerator::from_waypoints(waypoints)
    }

    /// How many waypoints the generator traverses in all.
    pub fn num_waypoints(&self) -> (r: usize)
        ensures
            r == self.waypoints().len(),
    {
        self.waypoints.len()
    }

    /// A file-backed generator applies no coordinate frame transform: the
    /// target it steers toward is always the stored waypoint itself,
    /// whatever the vehicle position.
    pub proof fn lemma_target_is_raw(&self, x_m: i64, y_m: i64)
        ensures
            self.target(x_m, y_m) == (
                self.waypoints()[self.cursor()].latitude as int,
                self.waypoints()[self.cursor()].longitude as int,
            ),
    {
    }
}

impl WaypointGenerator for KmlWaypointGenerator {
    closed spec fn waypoints(&self) -> Seq<Waypoint> {
        self.waypoints@
    }

    closed spec fn cursor(&self) -> int {
        self.current_waypoint as int
    }

    closed spec fn inv(&self) -> bool {
        self.current_waypoint <= self.waypoints@.len()
    }

    closed spec fn target(&self, x_m: i64, y_m: i64) -> (int, int) {
        (
            self.waypoints@[self.cursor()].latitude as int,
            self.waypoints@[self.cursor()].longitude as int,
        )
    }

    fn get_current_waypoint(&self, x_m: i64, y_m: i64) -> (r: (i64, i64)) {
        let wp = self.waypoints[self.current_waypoint];
        (wp.latitude, wp.longitude)
    }

    fn get_current_raw_waypoint(&self, x_m: i64, y_m: i64) -> (r: (i64, i64)) {
        let wp = self.waypoints[self.current_waypoint];
        (wp.latitude, wp.longitude)
    }

    fn next(&mut self) {
        if self.current_waypoint < self.waypoints.len() {
            self.current_waypoint = self.current_waypoint + 1;
        }
    }

    fn reached(&self, x_m: i64, y_m: i64) -> (r: bool) {
        let wp = self.waypoints[self.current_waypoint];
        let dx = x_m as i128 - wp.latitude as i128;
        let dy = y_m as i128 - wp.longitude as i128;
        let tol = ARRIVAL_TOLERANCE as i128;
        if dx > tol || dx < -tol {
            proof {
                assert(dx * dx > tol * tol && dy * dy >= 0) by (nonlinear_arith)
                    requires
                        dx > tol || dx < -tol,
                        tol >= 0,
                ;
            }
            return false;
        }
        if dy > tol || dy < -tol {
            proof {
                assert(dy * dy > tol * tol && dx * dx >= 0) by (nonlinear_arith)
                    requires
                        dy > tol || dy < -tol,
                        tol >= 0,
                ;
            }
            return false;
        }
        proof {
            assert(0 <= dx * dx <= tol * tol && 0 <= dy * dy <= tol * tol) by (nonlinear_arith)
                requires
                    -tol <= dx <= tol,
                    -tol <= dy <= tol,
                    tol >= 0,
            ;
        }
        dx * dx + dy * dy <= tol * tol
    }

    fn done(&self) -> (r: bool) {
        self.current_waypoint == self.waypoints.len()
    }
}

} // verus!
