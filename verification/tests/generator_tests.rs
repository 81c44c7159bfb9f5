use kml_waypoints::generator::{KmlWaypointGenerator, WaypointGenerator, ARRIVAL_TOLERANCE};
use kml_waypoints::{Waypoint, WaypointError};

fn wp(latitude: i64, longitude: i64) -> Waypoint {
    Waypoint { latitude, longitude }
}

#[test]
fn two_waypoint_document_traversal() {
    let doc = b"<coordinates>\n-122.1,37.4,0 -122.2,37.5,10\n</coordinates>\n".to_vec();
    let mut g = KmlWaypointGenerator::from_document(&doc).unwrap();
    assert_eq!(g.num_waypoints(), 2);
    assert!(!g.done());
    assert_eq!(g.get_current_raw_waypoint(0, 0), (37_400_000, -122_100_000));
    assert_eq!(g.get_current_waypoint(0, 0), (37_400_000, -122_100_000));
    g.next();
    assert!(!g.done());
    assert_eq!(g.get_current_raw_waypoint(0, 0), (37_500_000, -122_200_000));
    g.next();
    assert!(g.done());
}

#[test]
fn malformed_token_is_skipped_not_fatal() {
    let doc = b"<coordinates>\nbad,token -122.2,37.5\n</coordinates>\n".to_vec();
    let mut g = KmlWaypointGenerator::from_document(&doc).unwrap();
    assert_eq!(g.num_waypoints(), 1);
    assert_eq!(g.get_current_raw_waypoint(5, -5), (37_500_000, -122_200_000));
    g.next();
    assert!(g.done());
}

#[test]
fn document_without_marker_fails_construction() {
    let doc = b"<kml>\nno coordinates at all\n</kml>\n".to_vec();
    let r = KmlWaypointGenerator::from_document(&doc);
    assert_eq!(r.unwrap_err(), WaypointError::EmptyWaypointList);
}

#[test]
fn payload_of_only_malformed_tokens_fails_construction() {
    let doc = b"<coordinates>\nbad,token junk\n</coordinates>\n".to_vec();
    let r = KmlWaypointGenerator::from_document(&doc);
    assert_eq!(r.unwrap_err(), WaypointError::EmptyWaypointList);
}

#[test]
fn empty_waypoint_list_is_rejected() {
    let r = KmlWaypointGenerator::from_waypoints(vec![]);
    assert_eq!(r.unwrap_err(), WaypointError::EmptyWaypointList);
}

#[test]
fn advancing_len_times_reaches_done_and_stays_there() {
    let wps = vec![wp(1, 1), wp(2, 2), wp(3, 3)];
    let n = wps.len();
    let mut g = KmlWaypointGenerator::from_waypoints(wps).unwrap();
    for _ in 0..n {
        assert!(!g.done());
        g.next();
    }
    assert!(g.done());
    // one further advance leaves the generator done
    g.next();
    assert!(g.done());
    assert_eq!(g.num_waypoints(), n);
}

#[test]
fn reached_is_inclusive_at_the_tolerance() {
    let g = KmlWaypointGenerator::from_waypoints(vec![wp(0, 0)]).unwrap();
    // exactly on the boundary, along one axis
    assert!(g.reached(ARRIVAL_TOLERANCE, 0));
    assert!(g.reached(0, -ARRIVAL_TOLERANCE));
    // exactly on the boundary, along a 3-4-5 diagonal
    assert!(g.reached(600_000, 800_000));
    // just beyond it
    assert!(!g.reached(ARRIVAL_TOLERANCE + 1, 0));
    assert!(!g.reached(600_001, 800_000));
}

#[test]
fn reached_measures_from_the_current_target() {
    let mut g =
        KmlWaypointGenerator::from_waypoints(vec![wp(0, 0), wp(10_000_000, 0)]).unwrap();
    assert!(g.reached(0, 0));
    assert!(!g.reached(10_000_000, 0));
    g.next();
    assert!(!g.reached(0, 0));
    assert!(g.reached(10_000_000, 0));
    assert!(g.reached(10_500_000, 0));
}

#[test]
fn observers_do_not_move_the_cursor() {
    let g = KmlWaypointGenerator::from_waypoints(vec![wp(4, 2)]).unwrap();
    assert_eq!(g.get_current_raw_waypoint(0, 0), (4, 2));
    assert_eq!(g.get_current_raw_waypoint(7, 7), (4, 2));
    assert!(!g.done());
    assert!(!g.done());
}
