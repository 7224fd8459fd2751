use raycast::CastResult;
use raycast::LoadError;
use raycast::MalformedKind;
use raycast::ObstacleSet;
use raycast::Point;
use raycast::RawRecord;
use raycast::Segment;
use raycast::cast;
use raycast::cast_parallel;
use raycast::cast_sequential;
use raycast::load_obstacles;
use raycast::nearest_intersection;
use raycast::parse_milli_units;
use raycast::sample_angles;

/// The direction resolver the callers use: the far point of the ray at the
/// fraction `num / den` of a full clockwise rotation from "up", on the
/// circle of `radius` centred on `origin`, rounded to the nearest unit.
fn far_point(origin: (i64, i64), radius: i64, num: usize, den: usize) -> Point {
    let t = (num as f64) / (den as f64) * std::f64::consts::TAU;
    let x = (radius as f64) * t.sin();
    let y = (radius as f64) * t.cos();
    Point {
        x: origin.0 + x.round() as i64,
        y: origin.1 + y.round() as i64,
    }
}

fn far_points(origin: (i64, i64), radius: i64, count: usize) -> Vec<Point> {
    sample_angles(count)
        .iter()
        .map(|a| far_point(origin, radius, a.num, a.den))
        .collect()
}

fn obstacles(walls: &[((i64, i64), (i64, i64))]) -> ObstacleSet {
    let segs: Vec<Segment> = walls
        .iter()
        .map(|&((ax, ay), (bx, by))| Segment {
            a: Point { x: ax, y: ay },
            b: Point { x: bx, y: by },
        })
        .collect();
    ObstacleSet::from_segments(segs).unwrap()
}

fn record(geometry: &str, fields: &[&str]) -> RawRecord {
    RawRecord {
        geometry: geometry.as_bytes().to_vec(),
        fields: fields.iter().map(|f| f.as_bytes().to_vec()).collect(),
    }
}

#[test]
fn cast_length_equals_ray_count() {
    let walls = obstacles(&[((-10, 50), (10, 50))]);
    let empty = ObstacleSet::empty();
    for &n in &[1usize, 2, 3, 7, 360] {
        let fps = far_points((0, 0), 1000, n);
        assert_eq!(cast(Point { x: 0, y: 0 }, &walls, &fps, false).results.len(), n);
        assert_eq!(cast(Point { x: 0, y: 0 }, &empty, &fps, true).results.len(), n);
    }
}

#[test]
fn empty_obstacles_endpoints_are_far_points() {
    let empty = ObstacleSet::empty();
    let fps = far_points((3, -7), 120, 9);
    let r = cast(Point { x: 3, y: -7 }, &empty, &fps, false);
    for (res, fp) in r.results.iter().zip(fps.iter()) {
        assert_eq!(res.end.den, 1);
        assert!(res.end.is_point(fp.x, fp.y));
    }
}

#[test]
fn crossing_wall_intersection_lies_on_both_segments() {
    let walls = obstacles(&[((-10, 50), (10, 50))]);
    let ray = Segment {
        a: Point { x: 0, y: 0 },
        b: Point { x: 0, y: 100 },
    };
    let p = nearest_intersection(ray, &walls).unwrap();
    assert!(p.is_point(0, 50));
    // the point satisfies both line equations within floating tolerance,
    // with ray and obstacle parameters inside [0, 1]
    let px = p.x_num as f64 / p.den as f64;
    let py = p.y_num as f64 / p.den as f64;
    let t = py / 100.0;
    let u = (px + 10.0) / 20.0;
    assert!((0.0..=1.0).contains(&t));
    assert!((0.0..=1.0).contains(&u));
    assert!((px - 0.0).abs() < 1e-9);
    assert!((py - 50.0).abs() < 1e-9);
}

#[test]
fn sequential_and_parallel_casts_agree() {
    let walls = obstacles(&[
        ((-200, 150), (200, 150)),
        ((80, -300), (80, 300)),
        ((-50, -50), (150, -90)),
        ((7, 7), (7, 7)),
    ]);
    let fps = far_points((3, 7), 1000, 64);
    let origin = Point { x: 3, y: 7 };
    let seq = cast_sequential(origin, &walls, &fps);
    let par = cast_parallel(origin, &walls, &fps);
    assert_eq!(seq, par);
    let seq2 = cast(origin, &walls, &fps, false);
    let par2 = cast(origin, &walls, &fps, true);
    assert_eq!(seq2, par2);
    assert_eq!(seq, seq2);
}

#[test]
fn parallel_wall_never_hits() {
    let ray = Segment {
        a: Point { x: 0, y: 0 },
        b: Point { x: 0, y: 100 },
    };
    // collinear and overlapping
    let collinear = obstacles(&[((0, 10), (0, 60))]);
    assert!(nearest_intersection(ray, &collinear).is_none());
    // parallel at an offset
    let offset = obstacles(&[((5, 10), (5, 60))]);
    assert!(nearest_intersection(ray, &offset).is_none());
    // a zero-length ray strikes nothing either
    let point_ray = Segment {
        a: Point { x: 0, y: 0 },
        b: Point { x: 0, y: 0 },
    };
    assert!(nearest_intersection(point_ray, &collinear).is_none());
}

#[test]
fn nearest_of_two_crossing_walls_wins() {
    let ray = Segment {
        a: Point { x: 0, y: 0 },
        b: Point { x: 0, y: 100 },
    };
    // the farther wall comes first in the set
    let walls = obstacles(&[((-10, 80), (10, 80)), ((-10, 30), (10, 30))]);
    let p = nearest_intersection(ray, &walls).unwrap();
    assert!(p.is_point(0, 30));
    let d2 = |x: f64, y: f64| x * x + y * y;
    let px = p.x_num as f64 / p.den as f64;
    let py = p.y_num as f64 / p.den as f64;
    assert!(d2(px, py) <= d2(0.0, 80.0));
}

#[test]
fn horizontal_wall_ahead_stops_the_up_ray_only() {
    let walls = obstacles(&[((-10, 50), (10, 50))]);
    let fps = far_points((0, 0), 1000, 4);
    let r = cast(Point { x: 0, y: 0 }, &walls, &fps, false);
    assert_eq!(r.results.len(), 4);
    // the 0-degree ray points "up" and strikes the wall at (0, 50)
    assert!(r.results[0].end.is_point(0, 50));
    // the 90-, 180- and 270-degree rays reach their far points, none of
    // which lies on the wall (whose points all have y == 50, |x| <= 10)
    for k in 1..4 {
        let e = &r.results[k].end;
        assert_eq!(e.den, 1);
        assert!(e.is_point(fps[k].x, fps[k].y));
        assert_ne!(e.y_num, 50 * e.den);
    }
}

#[test]
fn full_circle_of_rays_is_evenly_spaced_on_the_radius() {
    let angles = sample_angles(360);
    assert_eq!(angles.len(), 360);
    for (i, a) in angles.iter().enumerate() {
        // in degrees: 360 * i / 360 == i, so the spacing is exactly 1
        assert_eq!(a.num, i);
        assert_eq!(a.den, 360);
    }
    let empty = ObstacleSet::empty();
    let fps = far_points((0, 0), 500, 360);
    let r = cast(Point { x: 0, y: 0 }, &empty, &fps, true);
    assert_eq!(r.results.len(), 360);
    for (res, fp) in r.results.iter().zip(fps.iter()) {
        assert!(res.end.is_point(fp.x, fp.y));
        let x = res.end.x_num as f64 / res.end.den as f64;
        let y = res.end.y_num as f64 / res.end.den as f64;
        // the far points carry at most half a unit of rounding per axis
        assert!(((x * x + y * y).sqrt() - 500.0).abs() <= 0.75);
    }
}

#[test]
fn single_angle_sample_is_the_interval_start() {
    let angles = sample_angles(1);
    assert_eq!(angles.len(), 1);
    assert_eq!(angles[0].num, 0);
    assert_eq!(angles[0].den, 1);
}

#[test]
fn decimal_parsing_to_milli_units() {
    let p = |s: &str| parse_milli_units(&s.as_bytes().to_vec());
    assert_eq!(p("250"), Some(250000));
    assert_eq!(p("250.5"), Some(250500));
    assert_eq!(p("0.25"), Some(250));
    assert_eq!(p("+7.03"), Some(7030));
    assert_eq!(p("-3.125"), Some(-3125));
    // digits past the third fraction digit truncate toward zero
    assert_eq!(p("-3.1259"), Some(-3125));
    assert_eq!(p("1.0009"), Some(1000));
    assert_eq!(p("999999999999"), Some(999999999999000));
}

#[test]
fn malformed_numbers_are_rejected() {
    let p = |s: &str| parse_milli_units(&s.as_bytes().to_vec());
    assert_eq!(p(""), None);
    assert_eq!(p("-"), None);
    assert_eq!(p(".5"), None);
    assert_eq!(p("12."), None);
    assert_eq!(p("1.2.3"), None);
    assert_eq!(p("abc"), None);
    assert_eq!(p("12a"), None);
    assert_eq!(p("1e5"), None);
    assert_eq!(p(" 1"), None);
    // a thirteenth integer digit is over the loader's cap
    assert_eq!(p("1000000000000"), None);
}

#[test]
fn loading_remaps_into_centred_coordinates() {
    // a 500x500 source area: half extents 250.0, in milli-units
    let records = vec![
        record("line", &["100", "30", "400", "30"]),
        record("line", &["250.5", "0", "250.5", "500"]),
    ];
    let obs = load_obstacles(&records, 250000, 250000).unwrap();
    assert_eq!(obs.len(), 2);
    // (x, y) -> (y - half_height, half_width - x)
    let s0 = obs.get(0);
    assert_eq!(s0.a, Point { x: 30000 - 250000, y: 250000 - 100000 });
    assert_eq!(s0.b, Point { x: 30000 - 250000, y: 250000 - 400000 });
    let s1 = obs.get(1);
    assert_eq!(s1.a, Point { x: -250000, y: -500 });
    assert_eq!(s1.b, Point { x: 250000, y: -500 });
}

#[test]
fn loading_fails_atomically_on_the_first_bad_record() {
    let good = || record("line", &["1", "2", "3", "4"]);
    // unsupported geometry
    let r = load_obstacles(&vec![good(), record("circle", &["1", "2", "3", "4"])], 1000, 1000);
    assert_eq!(r.unwrap_err(), LoadError::UnsupportedGeometry { record_index: 1 });
    // missing fields
    let r = load_obstacles(&vec![record("line", &["1", "2", "3"])], 1000, 1000);
    assert_eq!(
        r.unwrap_err(),
        LoadError::Malformed { record_index: 0, detail: MalformedKind::MissingField { field: 3 } }
    );
    // a non-numeric field
    let r = load_obstacles(&vec![good(), good(), record("line", &["1", "x", "3", "4"])], 1000, 1000);
    assert_eq!(
        r.unwrap_err(),
        LoadError::Malformed { record_index: 2, detail: MalformedKind::NotNumeric { field: 1 } }
    );
    // a coordinate beyond the engine's bound
    let r = load_obstacles(&vec![record("line", &["1", "999999999999", "3", "4"])], 1000, 1000);
    assert_eq!(
        r.unwrap_err(),
        LoadError::Malformed { record_index: 0, detail: MalformedKind::OutOfRange { field: 1 } }
    );
}

#[test]
fn out_of_bounds_segments_are_refused_by_the_set() {
    let far: i64 = 1 << 40;
    let segs = vec![Segment {
        a: Point { x: far, y: 0 },
        b: Point { x: 0, y: 0 },
    }];
    assert!(ObstacleSet::from_segments(segs).is_none());
}

#[test]
fn loaded_obstacles_cast_like_hand_built_ones() {
    // one wall across the middle of a 500x500 source area, milli-units
    let records = vec![record("line", &["0", "125", "500", "125"])];
    let obs = load_obstacles(&records, 250000, 250000).unwrap();
    // the wall maps to x == -125000, vertical span the full area height;
    // the ray pointing "left" (270 degrees) from the centre strikes it
    let fps = far_points((0, 0), 400000, 4);
    let r: CastResult = cast(Point { x: 0, y: 0 }, &obs, &fps, false);
    assert!(r.results[3].end.is_point(-125000, 0));
    // the "up" ray misses it and leaves the area
    assert!(r.results[0].end.is_point(fps[0].x, fps[0].y));
}
