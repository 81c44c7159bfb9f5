use kml_waypoints::parser::{parse_document, parse_field, parse_payload, parse_token};
use kml_waypoints::{Waypoint, MICRO_PER_UNIT};

fn wp(latitude: i64, longitude: i64) -> Waypoint {
    Waypoint { latitude, longitude }
}

#[test]
fn field_plain_integer() {
    assert_eq!(parse_field(&b"37".to_vec()), Some(37 * MICRO_PER_UNIT));
    assert_eq!(parse_field(&b"0".to_vec()), Some(0));
    assert_eq!(parse_field(&b"+5".to_vec()), Some(5 * MICRO_PER_UNIT));
    assert_eq!(parse_field(&b"-8".to_vec()), Some(-8 * MICRO_PER_UNIT));
}

#[test]
fn field_with_fraction() {
    assert_eq!(parse_field(&b"-122.1".to_vec()), Some(-122_100_000));
    assert_eq!(parse_field(&b"37.4".to_vec()), Some(37_400_000));
    assert_eq!(parse_field(&b"0.000001".to_vec()), Some(1));
    assert_eq!(parse_field(&b"-0.5".to_vec()), Some(-500_000));
}

#[test]
fn field_extra_fraction_digits_are_cut_off() {
    assert_eq!(parse_field(&b"1.23456789".to_vec()), Some(1_234_567));
    assert_eq!(parse_field(&b"-0.0000009".to_vec()), Some(0));
}

#[test]
fn field_at_the_integer_width_limit() {
    assert_eq!(
        parse_field(&b"999999999999.999999".to_vec()),
        Some(999_999_999_999_999_999)
    );
    // a thirteenth integer digit is malformed
    assert_eq!(parse_field(&b"1000000000000".to_vec()), None);
}

#[test]
fn field_malformed_shapes() {
    assert_eq!(parse_field(&b"".to_vec()), None);
    assert_eq!(parse_field(&b"-".to_vec()), None);
    assert_eq!(parse_field(&b"+".to_vec()), None);
    assert_eq!(parse_field(&b".".to_vec()), None);
    assert_eq!(parse_field(&b"1.".to_vec()), None);
    assert_eq!(parse_field(&b".5".to_vec()), None);
    assert_eq!(parse_field(&b"1.2.3".to_vec()), None);
    assert_eq!(parse_field(&b"12e3".to_vec()), None);
    assert_eq!(parse_field(&b"abc".to_vec()), None);
    assert_eq!(parse_field(&b"--1".to_vec()), None);
}

#[test]
fn token_swaps_longitude_and_latitude() {
    assert_eq!(
        parse_token(&b"-122.1,37.4".to_vec()),
        Some(wp(37_400_000, -122_100_000))
    );
}

#[test]
fn token_ignores_altitude() {
    assert_eq!(
        parse_token(&b"-122.2,37.5,10".to_vec()),
        Some(wp(37_500_000, -122_200_000))
    );
    // even a malformed altitude is ignored
    assert_eq!(parse_token(&b"1,2,junk".to_vec()), Some(wp(2_000_000, 1_000_000)));
}

#[test]
fn token_missing_or_bad_fields() {
    assert_eq!(parse_token(&b"37.4".to_vec()), None);
    assert_eq!(parse_token(&b"bad,token".to_vec()), None);
    assert_eq!(parse_token(&b"1,".to_vec()), None);
    assert_eq!(parse_token(&b",1".to_vec()), None);
    assert_eq!(parse_token(&b"".to_vec()), None);
}

#[test]
fn payload_one_waypoint_per_well_formed_token() {
    let line = b"1.5,2.25 -0.000001,3.5,99 7,8".to_vec();
    let wps = parse_payload(&line);
    assert_eq!(
        wps,
        vec![
            wp(2_250_000, 1_500_000),
            wp(3_500_000, -1),
            wp(8_000_000, 7_000_000),
        ]
    );
}

#[test]
fn payload_skips_malformed_tokens_and_keeps_order() {
    let line = b"bad,token -122.2,37.5 junk 9,9".to_vec();
    let wps = parse_payload(&line);
    assert_eq!(wps, vec![wp(37_500_000, -122_200_000), wp(9_000_000, 9_000_000)]);
}

#[test]
fn payload_handles_extra_whitespace() {
    let line = b"  \t1,2 \t 3,4\r".to_vec();
    let wps = parse_payload(&line);
    assert_eq!(wps, vec![wp(2_000_000, 1_000_000), wp(4_000_000, 3_000_000)]);
}

#[test]
fn document_payload_is_line_after_marker() {
    let doc = b"<kml>\n<coordinates>\n-122.1,37.4,0 -122.2,37.5,10\n</coordinates>\n</kml>\n"
        .to_vec();
    let wps = parse_document(&doc);
    assert_eq!(
        wps,
        vec![wp(37_400_000, -122_100_000), wp(37_500_000, -122_200_000)]
    );
}

#[test]
fn document_skips_blank_lines_before_payload() {
    let doc = b"a\nb <coordinates> c\n\n   \n1,2\n3,4\n".to_vec();
    let wps = parse_document(&doc);
    // only the first payload line counts; "3,4" is past it
    assert_eq!(wps, vec![wp(2_000_000, 1_000_000)]);
}

#[test]
fn document_with_crlf_line_endings() {
    let doc = b"<coordinates>\r\n1,2 3,4\r\n</coordinates>\r\n".to_vec();
    assert_eq!(
        parse_document(&doc),
        vec![wp(2_000_000, 1_000_000), wp(4_000_000, 3_000_000)]
    );
}

#[test]
fn document_without_marker_is_empty() {
    let doc = b"<kml>\nnothing here\n</kml>\n".to_vec();
    assert_eq!(parse_document(&doc), vec![]);
}

#[test]
fn document_round_trip() {
    // a rendered document with two well-formed lon,lat tokens parses back
    // to the same two waypoints, field order swapped
    let lat0: i64 = 37_400_000;
    let lon0: i64 = -122_100_000;
    let lat1: i64 = 37_500_000;
    let lon1: i64 = -122_200_000;
    let doc = b"<coordinates>\n-122.100000,37.400000 -122.200000,37.500000\n</coordinates>"
        .to_vec();
    let wps = parse_document(&doc);
    assert_eq!(wps, vec![wp(lat0, lon0), wp(lat1, lon1)]);
}
