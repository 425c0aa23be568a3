use fan_controller::curve::{default_fan_speed_table, CurveError, FanSpeedTable};

#[test]
fn default_curve_endpoints() {
    let curve = default_fan_speed_table();
    assert_eq!(curve.lookup_speed(0), 0);
    assert_eq!(curve.lookup_speed(1000), 255);
}

#[test]
fn lookup_clamps_out_of_range_inputs() {
    let curve = default_fan_speed_table();
    assert_eq!(curve.lookup_speed(-5000), curve.lookup_speed(0));
    assert_eq!(curve.lookup_speed(2000), curve.lookup_speed(1000));
    assert_eq!(curve.lookup_speed(i64::MIN), 0);
    assert_eq!(curve.lookup_speed(i64::MAX), 255);
}

#[test]
fn lookup_interpolates_between_breakpoints() {
    let curve = default_fan_speed_table();
    // midway between (0.4, 70) and (0.6, 120)
    assert_eq!(curve.lookup_speed(500), 95);
    // a quarter of the way from (0.3, 0) to (0.4, 70), truncating
    assert_eq!(curve.lookup_speed(350), 35);
    // between (0.6, 120) and (0.7, 170)
    assert_eq!(curve.lookup_speed(650), 145);
    // between (0.8, 210) and the virtual end (1.0, 255)
    assert_eq!(curve.lookup_speed(900), 240);
    // below the first breakpoint the virtual (0, 0) anchors the segment
    assert_eq!(curve.lookup_speed(100), 0);
    assert_eq!(curve.lookup_speed(200), 0);
    // above the last breakpoint everything reads 255
    assert_eq!(curve.lookup_speed(975), 255);
}

#[test]
fn lookup_monotonic_off_breakpoints() {
    let curve = default_fan_speed_table();
    let samples: Vec<i64> = vec![
        0, 50, 100, 150, 200, 250, 299, 301, 350, 399, 401, 450, 500, 550, 599, 601, 650, 699,
        701, 750, 799, 801, 850, 900, 949, 951, 975, 1000,
    ];
    let mut last: u8 = 0;
    for load in samples {
        let s = curve.lookup_speed(load);
        assert!(s >= last, "lookup({}) = {} dropped below {}", load, s, last);
        last = s;
    }
}

#[test]
fn lookup_on_interior_breakpoint_uses_straddling_segment() {
    // On an exact breakpoint load both neighbours are skipped and the
    // interpolation runs across the point: at 0.3 the default curve reads
    // from (0, 0) to (0.4, 70).
    let curve = default_fan_speed_table();
    assert_eq!(curve.lookup_speed(300), 52);
}

#[test]
fn build_from_unsorted_matches_sorted() {
    let sorted = FanSpeedTable::new(vec![
        (300, 0),
        (400, 70),
        (600, 120),
        (700, 170),
        (800, 210),
        (950, 255),
    ])
    .unwrap();
    let shuffled = FanSpeedTable::new(vec![
        (600, 120),
        (300, 0),
        (950, 255),
        (400, 70),
        (800, 210),
        (700, 170),
    ])
    .unwrap();
    for load in 0..=1100i64 {
        assert_eq!(sorted.lookup_speed(load), shuffled.lookup_speed(load));
    }
}

#[test]
fn single_point_curve() {
    let curve = FanSpeedTable::new(vec![(500, 100)]).unwrap();
    assert_eq!(curve.lookup_speed(0), 0);
    assert_eq!(curve.lookup_speed(250), 50);
    assert_eq!(curve.lookup_speed(750), 177);
    assert_eq!(curve.lookup_speed(1000), 255);
}

#[test]
fn empty_curve_interpolates_virtual_endpoints() {
    let curve = FanSpeedTable::new(Vec::new()).unwrap();
    assert_eq!(curve.lookup_speed(0), 0);
    assert_eq!(curve.lookup_speed(400), 102);
    assert_eq!(curve.lookup_speed(1000), 255);
}

#[test]
fn build_rejects_load_out_of_range() {
    let r = FanSpeedTable::new(vec![(300, 0), (1200, 10)]);
    assert_eq!(r.unwrap_err(), CurveError::LoadOutOfRange);
}

#[test]
fn build_rejects_duplicate_loads() {
    let r = FanSpeedTable::new(vec![(300, 0), (500, 10), (300, 20)]);
    assert_eq!(r.unwrap_err(), CurveError::DuplicateLoad);
}
