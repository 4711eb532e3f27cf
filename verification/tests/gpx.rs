use gpxtools::cal::civil_to_days;
use gpxtools::geo::dist;
use gpxtools::DecodeError;
use gpxtools::Point;
use gpxtools::Track;
use gpxtools::TrackError;

fn pt(lat: i64, long: i64, time: i64) -> Point {
    Point { lat, long, ele: 0, time }
}

fn track(points: Vec<Point>) -> Track {
    Track { name: String::from("t"), points }
}

#[test]
fn dist_same_point_is_zero() {
    let p = pt(48_123_456, 11_987_654, 0);
    assert_eq!(dist(&p, &p), 0);
}

#[test]
fn dist_colocated_is_zero() {
    let p1 = pt(-33_500_000, 151_200_000, 0);
    let p2 = pt(-33_500_000, 151_200_000, 99_000);
    assert_eq!(dist(&p1, &p2), 0);
}

#[test]
fn dist_is_symmetric() {
    let p1 = pt(48_000_000, 11_000_000, 0);
    let p2 = pt(48_100_000, 11_200_000, 0);
    assert_eq!(dist(&p1, &p2), dist(&p2, &p1));
    let p3 = pt(-10_000_000, -60_000_000, 0);
    assert_eq!(dist(&p1, &p3), dist(&p3, &p1));
}

#[test]
fn dist_one_degree_latitude() {
    // One degree of latitude is about 111.19 km.
    let p1 = pt(0, 0, 0);
    let p2 = pt(1_000_000, 0, 0);
    let d = dist(&p1, &p2);
    assert!(d > 111_100_000 && d < 111_300_000, "got {d}");
}

#[test]
fn dist_small_longitude_step() {
    // 0.001 degree of longitude at the equator is about 111.19 m.
    let p1 = pt(0, 0, 0);
    let p2 = pt(0, 1000, 0);
    let d = dist(&p1, &p2);
    assert!(d > 111_000 && d < 111_400, "got {d}");
}

#[test]
fn len_empty_track_fails() {
    let t = track(vec![]);
    assert_eq!(t.len(), Err(TrackError::EmptyTrack));
    assert_eq!(t.time(), Err(TrackError::EmptyTrack));
    assert_eq!(t.speed(), Err(TrackError::EmptyTrack));
}

#[test]
fn colocated_track_has_zero_length_and_speed() {
    let pts = vec![pt(10_000_000, 20_000_000, 0), pt(10_000_000, 20_000_000, 10_000), pt(
        10_000_000,
        20_000_000,
        20_000,
    )];
    let t = track(pts);
    assert_eq!(t.len(), Ok(0));
    assert_eq!(t.time(), Ok(20_000));
    assert_eq!(t.speed(), Ok(0));
}

#[test]
fn zero_duration_speed_fails() {
    let t = track(vec![pt(0, 0, 5000), pt(0, 1000, 5000)]);
    assert_eq!(t.speed(), Err(TrackError::ZeroDuration));
}

#[test]
fn three_point_scenario() {
    // Points at (0, 0), (0, 0.001) and (0, 0.002), ten seconds apart.
    let t = track(vec![pt(0, 0, 0), pt(0, 1000, 10_000), pt(0, 2000, 20_000)]);
    let step = dist(&pt(0, 0, 0), &pt(0, 1000, 0)) as u128;
    let len = t.len().unwrap();
    assert_eq!(len, 2 * step);
    assert_eq!(t.time(), Ok(20_000));
    assert_eq!(t.speed(), Ok(len * 3_600_000 / 20_000));
}

#[test]
fn truncate_keeps_trailing_suffix() {
    // Steps of about 111 m; a 150 m cap keeps only the last pair.
    let mut t = track(vec![pt(0, 0, 0), pt(1000, 0, 10_000), pt(2000, 0, 20_000)]);
    t.truncate_by_length(150_000);
    assert_eq!(t.points.len(), 2);
    assert_eq!(t.points[0].lat, 1000);
    assert_eq!(t.points[1].lat, 2000);
}

#[test]
fn truncate_stops_at_single_point() {
    let mut t = track(vec![pt(0, 0, 0), pt(1_000_000, 0, 10_000)]);
    t.truncate_by_length(0);
    assert_eq!(t.points.len(), 1);
    assert_eq!(t.points[0].lat, 1_000_000);
}

#[test]
fn detect_constant_speed_flags_nothing() {
    let mut pts = Vec::new();
    for i in 0..10i64 {
        pts.push(pt(i * 1000, 0, i * 10_000));
    }
    let bad = track(pts).parse().unwrap();
    assert_eq!(bad.name, "bad");
    assert!(bad.points.is_empty());
}

#[test]
fn detect_flags_frozen_stretch() {
    // Move, stand still for five fixes, move again: exactly the fixes whose
    // window collapses onto the frozen spot are flagged.
    let mut pts = Vec::new();
    for i in 0..5i64 {
        pts.push(pt(i * 1000, 0, i * 10_000));
    }
    for i in 5..10i64 {
        pts.push(pt(4000, 0, i * 10_000));
    }
    for i in 10..15i64 {
        pts.push(pt((i - 5) * 1000, 0, i * 10_000));
    }
    let t = track(pts);
    let bad = t.parse().unwrap();
    assert_eq!(bad.points.len(), 5);
    for (k, p) in bad.points.iter().enumerate() {
        assert_eq!(p.lat, 4000);
        assert_eq!(p.time, (5 + k as i64) * 10_000);
    }
}

#[test]
fn detect_empty_track_fails() {
    assert!(matches!(track(vec![]).parse(), Err(TrackError::EmptyTrack)));
}

#[test]
fn partition_single_part_when_cap_covers_all() {
    let t = track(vec![pt(0, 0, 0), pt(1000, 0, 10_000), pt(2000, 0, 20_000)]);
    let parts = t.partition(10);
    assert_eq!(parts.len(), 1);
    assert_eq!(parts[0].name, "t_0");
    assert_eq!(parts[0].points.len(), 3);
    assert_eq!(parts[0].points[2].lat, 2000);
}

#[test]
fn partition_rounds_up() {
    let mut pts = Vec::new();
    for i in 0..5i64 {
        pts.push(pt(i * 1000, 0, i * 10_000));
    }
    let parts = track(pts).partition(2);
    assert_eq!(parts.len(), 3);
    assert_eq!(parts[0].points.len(), 2);
    assert_eq!(parts[1].points.len(), 2);
    assert_eq!(parts[2].points.len(), 1);
    assert_eq!(parts[0].name, "t_0");
    assert_eq!(parts[1].name, "t_1");
    assert_eq!(parts[2].name, "t_2");
    assert_eq!(parts[2].points[0].lat, 4000);
}

#[test]
fn split_without_gaps_is_one_segment() {
    let t = track(vec![pt(0, 0, 0), pt(1000, 0, 10_000), pt(2000, 0, 20_000)]);
    let segs = t.split_on_gaps(500_000);
    assert_eq!(segs.len(), 1);
    assert_eq!(segs[0].len(), 3);
}

#[test]
fn split_opens_segment_at_gap() {
    // An 11 km jump against a 0.5 km threshold starts a new segment there.
    let t = track(vec![
        pt(0, 0, 0),
        pt(1000, 0, 10_000),
        pt(2000, 0, 20_000),
        pt(102_000, 0, 30_000),
        pt(103_000, 0, 40_000),
    ]);
    let segs = t.split_on_gaps(500_000);
    assert_eq!(segs.len(), 2);
    assert_eq!(segs[0].len(), 3);
    assert_eq!(segs[1].len(), 2);
    assert_eq!(segs[1][0].lat, 102_000);
}

#[test]
fn encode_exact_document() {
    let t = Track {
        name: String::from("t"),
        points: vec![Point { lat: 1_500_000, long: -500_000, ele: 12_345, time: 0 }],
    };
    let s = t.to_xml(false);
    let expected = "<?xml version=\"1.0\" encoding=\"UTF-8\"?>\n<gpx creator=\"Pothole\"><trk><name>t</name><trkseg><trkpt lat=\"1.500000\" lon=\"-0.500000\" ele=\"12.345\"><time>1970-01-01T00:00:00.000Z</time></trkpt></trkseg></trk></gpx>";
    assert_eq!(s, expected);
}

#[test]
fn round_trip_single_segment() {
    let t = Track {
        name: String::from("morning ride"),
        points: vec![
            Point { lat: 48_137_000, long: 11_575_000, ele: 519_000, time: 1_577_934_245_678 },
            Point { lat: 48_138_500, long: 11_576_200, ele: 520_500, time: 1_577_934_345_678 },
            Point { lat: -1_000_000, long: -2_000_000, ele: -3_000, time: 1_577_934_445_000 },
        ],
    };
    let s = t.to_xml(false);
    let mut back = Track::default();
    let warns = back.from_xml(&s).unwrap();
    assert!(warns.is_empty());
    assert_eq!(back.name, t.name);
    assert_eq!(back.points, t.points);
}

#[test]
fn round_trip_with_gap_segments() {
    let t = Track {
        name: String::from("two parts"),
        points: vec![
            pt(0, 0, 1_000_000),
            pt(1000, 0, 2_000_000),
            pt(500_000, 0, 3_000_000),
            pt(501_000, 0, 4_000_000),
        ],
    };
    let s = t.to_xml(true);
    // The gap splits the output into two trkseg blocks.
    assert_eq!(s.matches("<trkseg>").count(), 2);
    let mut back = Track::default();
    back.from_xml(&s).unwrap();
    assert_eq!(back.name, t.name);
    assert_eq!(back.points, t.points);
}

#[test]
fn decode_tolerates_unknown_markup() {
    let doc = "<?xml version=\"1.0\"?>\n<gpx version=\"1.0\"><metadata><author>nobody</author></metadata><trk><name>hi</name><number>7</number><trkseg>\n<trkpt lat=\"1.0\" lon=\"2.0\"><ele>3.0</ele><time>2020-01-02T03:04:05.678Z</time><sat>9</sat></trkpt>\n</trkseg></trk></gpx>";
    let mut t = Track::default();
    let warns = t.from_xml(doc).unwrap();
    assert!(warns.is_empty());
    assert_eq!(t.name, "hi");
    assert_eq!(t.points.len(), 1);
    let p = t.points[0];
    assert_eq!(p.lat, 1_000_000);
    assert_eq!(p.long, 2_000_000);
    assert_eq!(p.ele, 3_000);
    let days = civil_to_days(2020, 1, 2) as i64;
    let expect_ms = ((days * 24 + 3) * 60 + 4) * 60 * 1000 + 5 * 1000 + 678;
    assert_eq!(p.time, expect_ms);
}

#[test]
fn decode_accepts_whole_second_timestamps() {
    let doc = "<gpx><trk><trkseg><trkpt lat=\"0.5\" lon=\"0.25\"><time>1970-01-02T00:00:00Z</time></trkpt></trkseg></trk></gpx>";
    let mut t = Track::default();
    let warns = t.from_xml(doc).unwrap();
    assert!(warns.is_empty());
    assert_eq!(t.points[0].time, 86_400_000);
}

#[test]
fn decode_attribute_elevation() {
    let doc = "<gpx><trk><trkseg><trkpt lat=\"0.0\" lon=\"0.0\" ele=\"-12.5\"></trkpt></trkseg></trk></gpx>";
    let mut t = Track::default();
    t.from_xml(doc).unwrap();
    assert_eq!(t.points[0].ele, -12_500);
}

#[test]
fn decode_bad_timestamp_warns_and_uses_sentinel() {
    let doc = "<gpx><trk><trkseg><trkpt lat=\"1.0\" lon=\"1.0\"><time>not a time</time></trkpt></trkseg></trk></gpx>";
    let mut t = Track::default();
    let warns = t.from_xml(doc).unwrap();
    assert_eq!(warns.len(), 1);
    assert_eq!(warns[0].point_index, 0);
    assert_eq!(t.points[0].time, 1000);
}

#[test]
fn decode_bad_coordinate_is_malformed() {
    let doc = "<gpx><trk><trkseg><trkpt lat=\"abc\" lon=\"1.0\"></trkpt></trkseg></trk></gpx>";
    let mut t = Track::default();
    assert_eq!(t.from_xml(doc), Err(DecodeError::Malformed));
    assert!(t.points.is_empty());
}

#[test]
fn decode_out_of_range_latitude_is_malformed() {
    let doc = "<gpx><trk><trkseg><trkpt lat=\"91.0\" lon=\"0.0\"></trkpt></trkseg></trk></gpx>";
    let mut t = Track::default();
    assert_eq!(t.from_xml(doc), Err(DecodeError::Malformed));
}

#[test]
fn decode_truncated_document_is_malformed() {
    let doc = "<gpx><trk><name";
    let mut t = Track::default();
    assert_eq!(t.from_xml(doc), Err(DecodeError::Malformed));
}

#[test]
fn decode_rejects_non_ascii() {
    let doc = "<gpx><trk><name>caf\u{e9}</name></trk></gpx>";
    let mut t = Track::default();
    assert_eq!(t.from_xml(doc), Err(DecodeError::NotAscii));
}

#[test]
fn decode_self_closing_points_are_ignored() {
    let doc = "<gpx><trk><trkseg><trkpt lat=\"1.0\" lon=\"1.0\"/></trkseg></trk></gpx>";
    let mut t = Track::default();
    t.from_xml(doc).unwrap();
    assert!(t.points.is_empty());
}

#[test]
fn name_check_accepts_and_rejects() {
    assert!(gpxtools::xml::name_is_ok("a plain name 123"));
    assert!(!gpxtools::xml::name_is_ok("a <tag>"));
    assert!(!gpxtools::xml::name_is_ok("a & b"));
    assert!(!gpxtools::xml::name_is_ok("caf\u{e9}"));
}
