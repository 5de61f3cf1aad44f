use aoc2022::sensor::{find_distress, Sensor};

#[test]
fn sensor_perimiter_test_range_zero() {
    let s = Sensor::new((0, 0), (0, 0));

    let expected_perimiter = vec![(0, -1), (1, 0), (0, 1), (-1, 0)];
    assert_eq!(expected_perimiter, s.sensor_perimiter(-2, 2));
}

#[test]
fn sensor_perimiter_test_range_one() {
    let s = Sensor::new((0, 0), (0, 1));

    let expected_perimiter = vec![(0, -2), (1, -1), (2, 0), (1, 1), (0, 2), (-1, 1), (-2, 0), (-1, -1)];
    assert_eq!(expected_perimiter, s.sensor_perimiter(-2, 2));
}

#[test]
fn sensor_perimiter_test_range_one_with_bounds() {
    let s = Sensor::new((0, 0), (0, 1));

    let expected_perimiter = vec![(2, 0), (1, 1), (0, 2)];
    assert_eq!(expected_perimiter, s.sensor_perimiter(0, 2));
}

#[test]
fn sensor_perimeter_off_centre() {
    let s = Sensor::new((10, -5), (12, -5));
    let ring = s.sensor_perimiter(-100, 100);
    assert_eq!(ring.len(), 12);
    assert_eq!(ring[0], (10, -8));
    assert_eq!(ring[3], (13, -5));
    for &(x, y) in ring.iter() {
        assert_eq!(Sensor::manhattan_distance((10, -5), (x, y)), 3);
    }
}

#[test]
fn manhattan_and_range() {
    assert_eq!(Sensor::manhattan_distance((2, 18), (-2, 15)), 7);
    let s = Sensor::new((8, 7), (2, 10));
    assert_eq!(s.covered_range, 9);
    assert!(s.is_within_range((8, -2)));
    assert!(!s.is_within_range((8, -3)));
    assert!(s.is_within_range((2, 10)));
}

#[test]
fn sensors_read_from_report() {
    let lines = vec![
        "Sensor at x=2, y=18: closest beacon is at x=-2, y=15".to_string(),
        "Sensor at x=9, y=16: closest beacon is at x=10, y=16".to_string(),
    ];
    let sensors = Sensor::parse(lines).unwrap();
    assert_eq!(sensors.len(), 2);
    assert_eq!(sensors[0].pos, (2, 18));
    assert_eq!(sensors[0].closest_beacon, (-2, 15));
    assert_eq!(sensors[0].covered_range, 7);
    assert_eq!(sensors[1].covered_range, 1);
}

#[test]
fn bad_reports() {
    assert!(Sensor::parse(vec!["Sensor at x=2, y=18".to_string()]).is_err());
    assert!(Sensor::parse(vec!["no numbers here".to_string()]).is_err());
    assert!(Sensor::parse(vec!["x=99999999999, y=1: x=0, y=0".to_string()]).is_err());
    assert_eq!(Sensor::parse(Vec::new()).unwrap().len(), 0);
}

#[test]
fn matches_become_a_sensor() {
    let pairs = vec![("1".to_string(), "-2".to_string()), ("4".to_string(), "2".to_string())];
    let s = Sensor::from_matches(&pairs).unwrap();
    assert_eq!((s.pos, s.closest_beacon, s.covered_range), ((1, -2), (4, 2), 7));
    assert!(Sensor::from_matches(&vec![("1".to_string(), "2".to_string())]).is_err());
    assert!(Sensor::from_matches(&vec![("1".to_string(), "x".to_string()), ("1".to_string(), "2".to_string())]).is_err());
}

#[test]
fn distress_beacon_of_the_example() {
    let report = "Sensor at x=2, y=18: closest beacon is at x=-2, y=15
Sensor at x=9, y=16: closest beacon is at x=10, y=16
Sensor at x=13, y=2: closest beacon is at x=15, y=3
Sensor at x=12, y=14: closest beacon is at x=10, y=16
Sensor at x=10, y=20: closest beacon is at x=10, y=16
Sensor at x=14, y=17: closest beacon is at x=10, y=16
Sensor at x=8, y=7: closest beacon is at x=2, y=10
Sensor at x=2, y=0: closest beacon is at x=2, y=10
Sensor at x=0, y=11: closest beacon is at x=2, y=10
Sensor at x=20, y=14: closest beacon is at x=25, y=17
Sensor at x=17, y=20: closest beacon is at x=21, y=22
Sensor at x=16, y=7: closest beacon is at x=15, y=3
Sensor at x=14, y=3: closest beacon is at x=15, y=3
Sensor at x=20, y=1: closest beacon is at x=15, y=3";
    let sensors = Sensor::parse(report.lines().map(|l| l.to_string()).collect()).unwrap();
    assert_eq!(sensors.len(), 14);
    assert_eq!(find_distress(&sensors, 20), Some((14, 11)));
    assert_eq!(find_distress(&Vec::new(), 20), None);
}
