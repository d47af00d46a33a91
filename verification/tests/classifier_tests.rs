use negsel::fixed::{normalize, Point, MAX_RAW, SCALE};
use negsel::index::SpatialIndex;
use negsel::model::{Accuracy, Class, Error, FitParams, Model};

fn unit_bounds() -> (Point, Point) {
    // max = (10, 10), min = (0, 0) in fixed-point units
    (Point { x: 10 * SCALE, y: 10 * SCALE }, Point { x: 0, y: 0 })
}

fn model_with_detector() -> Model {
    let (maximums, minimums) = unit_bounds();
    let mut m = Model {
        detectors: vec![Point { x: 900_000, y: 900_000 }],
        radius: 100_000,
        maximums,
        minimums,
        kdtree: SpatialIndex::new(),
    };
    m.init_kdtree().unwrap();
    m
}

#[test]
fn normalize_min_is_zero_and_max_is_one() {
    let (maximums, minimums) = unit_bounds();
    let at_min = normalize(&minimums, &minimums, &maximums);
    assert_eq!(at_min, Point { x: 0, y: 0 });
    let at_max = normalize(&maximums, &minimums, &maximums);
    assert_eq!(at_max, Point { x: SCALE, y: SCALE });
}

#[test]
fn normalize_does_not_clamp() {
    let (maximums, minimums) = unit_bounds();
    // 20.0 raw is outside the bounds and normalizes to 2.0
    let p = Point { x: 20 * SCALE, y: -10 * SCALE };
    let n = normalize(&p, &minimums, &maximums);
    assert_eq!(n, Point { x: 2 * SCALE, y: -SCALE });
}

#[test]
fn candidate_far_from_self_is_accepted() {
    // Self-sample (5,5) under bounds (0..10, 0..10) normalizes to (0.5, 0.5).
    let mut index = SpatialIndex::new();
    index.insert(Point { x: 500_000, y: 500_000 });
    // distance ((0.9,0.9), (0.5,0.5)) ~ 0.566 > 0.1: no hit, so accepted
    assert!(!index.any_within(&Point { x: 900_000, y: 900_000 }, 100_000));
    let hits = index.query_within(&Point { x: 900_000, y: 900_000 }, 100_000);
    assert_eq!(hits.len(), 0);
}

#[test]
fn candidate_near_self_is_rejected() {
    let mut index = SpatialIndex::new();
    index.insert(Point { x: 500_000, y: 500_000 });
    // distance ((0.55,0.55), (0.5,0.5)) ~ 0.0707 < 0.1: hit, so rejected
    assert!(index.any_within(&Point { x: 550_000, y: 550_000 }, 100_000));
    let hits = index.query_within(&Point { x: 550_000, y: 550_000 }, 100_000);
    assert_eq!(hits.len(), 1);
    assert_eq!(hits[0], Point { x: 500_000, y: 500_000 });
}

#[test]
fn point_near_detector_is_negative() {
    let m = model_with_detector();
    // raw (9.1, 9.1) normalizes to (0.91, 0.91): distance ~0.014 < 0.1
    let got = m.eval(&Point { x: 9_100_000, y: 9_100_000 }).unwrap();
    assert_eq!(got, Class::Negative);
}

#[test]
fn point_far_from_detector_is_positive() {
    let m = model_with_detector();
    // raw (1, 1) normalizes to (0.1, 0.1): distance ~1.13 > 0.1
    let got = m.eval(&Point { x: 1_000_000, y: 1_000_000 }).unwrap();
    assert_eq!(got, Class::Positive);
}

#[test]
fn eval_on_unfitted_model_is_config_error() {
    let m = Model::new();
    let got = m.eval(&Point { x: 0, y: 0 });
    assert_eq!(got, Err(Error::ConfigError { dim: 0 }));
}

#[test]
fn eval_rejects_unrepresentable_point() {
    let m = model_with_detector();
    let got = m.eval(&Point { x: MAX_RAW + 1, y: 0 });
    assert_eq!(got, Err(Error::InvalidPointError { index: 0 }));
}

#[test]
fn fit_with_degenerate_bounds_is_config_error() {
    let (maximums, minimums) = unit_bounds();
    let mut m = Model::new();
    let positives = vec![Point { x: 5 * SCALE, y: 5 * SCALE }];
    let res = m.fit(&FitParams {
        positives: &positives,
        radius: 100_000,
        maximums: Point { x: minimums.x, y: maximums.y },
        minimums,
        no_detectors: 3,
    });
    assert_eq!(res, Err(Error::ConfigError { dim: 0 }));
    // and in the second dimension alone
    let res = m.fit(&FitParams {
        positives: &positives,
        radius: 100_000,
        maximums: Point { x: maximums.x, y: minimums.y },
        minimums,
        no_detectors: 3,
    });
    assert_eq!(res, Err(Error::ConfigError { dim: 1 }));
}

#[test]
fn fit_rejects_unrepresentable_sample() {
    let (maximums, minimums) = unit_bounds();
    let mut m = Model::new();
    let positives = vec![Point { x: 0, y: 0 }, Point { x: 0, y: -MAX_RAW - 1 }];
    let res = m.fit(&FitParams {
        positives: &positives,
        radius: 100_000,
        maximums,
        minimums,
        no_detectors: 3,
    });
    assert_eq!(res, Err(Error::InvalidPointError { index: 1 }));
}

#[test]
fn fit_generates_requested_detectors_in_unit_square() {
    let (maximums, minimums) = unit_bounds();
    let mut m = Model::new();
    let positives: Vec<Point> = vec![];
    m.fit(&FitParams {
        positives: &positives,
        radius: 0,
        maximums,
        minimums,
        no_detectors: 25,
    })
    .unwrap();
    assert_eq!(m.detectors.len(), 25);
    for d in &m.detectors {
        assert!(0 <= d.x && d.x <= SCALE);
        assert!(0 <= d.y && d.y <= SCALE);
    }
}

#[test]
fn fit_with_zero_detectors_always_succeeds() {
    // nothing is drawn, so no attempt budget can be exhausted
    let (maximums, minimums) = unit_bounds();
    let mut m = Model::new();
    let positives = vec![Point { x: 5 * SCALE, y: 5 * SCALE }];
    m.fit(&FitParams {
        positives: &positives,
        radius: 2 * SCALE,
        maximums,
        minimums,
        no_detectors: 0,
    })
    .unwrap();
    assert_eq!(m.detectors.len(), 0);
    assert_eq!(m.radius, 2 * SCALE);
    assert_eq!(m.maximums, maximums);
}

#[test]
fn fit_keeps_detectors_outside_radius_of_self() {
    let (maximums, minimums) = unit_bounds();
    let mut m = Model::new();
    let positives = vec![Point { x: 5 * SCALE, y: 5 * SCALE }];
    let radius: i64 = 100_000;
    m.fit(&FitParams {
        positives: &positives,
        radius,
        maximums,
        minimums,
        no_detectors: 10,
    })
    .unwrap();
    assert_eq!(m.detectors.len(), 10);
    // the self-sample normalizes to (0.5, 0.5)
    for d in &m.detectors {
        let dx = (d.x - 500_000) as i128;
        let dy = (d.y - 500_000) as i128;
        assert!(dx * dx + dy * dy > (radius as i128) * (radius as i128));
    }
}

#[test]
fn fit_fails_when_self_region_covers_everything() {
    let (maximums, minimums) = unit_bounds();
    let mut m = Model::new();
    let positives = vec![Point { x: 5 * SCALE, y: 5 * SCALE }];
    // radius 2.0 covers the whole unit square around the normalized sample
    let res = m.fit(&FitParams {
        positives: &positives,
        radius: 2 * SCALE,
        maximums,
        minimums,
        no_detectors: 1,
    });
    assert_eq!(res, Err(Error::InsufficientCoverageError));
    // the failed fit left the model untouched
    assert_eq!(m.detectors.len(), 0);
    assert_eq!(m.radius, 0);
}

#[test]
fn evaluate_all_matching_labels_is_exactly_one() {
    let m = model_with_detector();
    let points = vec![
        (Point { x: 9_100_000, y: 9_100_000 }, Class::Negative),
        (Point { x: 1_000_000, y: 1_000_000 }, Class::Positive),
        (Point { x: 2_000_000, y: 2_000_000 }, Class::Positive),
    ];
    let acc = m.test(&points).unwrap();
    assert_eq!(acc, Accuracy { correct: 3, total: 3 });
}

#[test]
fn evaluate_all_flipped_labels_is_exactly_zero() {
    let m = model_with_detector();
    let points = vec![
        (Point { x: 9_100_000, y: 9_100_000 }, Class::Positive),
        (Point { x: 1_000_000, y: 1_000_000 }, Class::Negative),
        (Point { x: 2_000_000, y: 2_000_000 }, Class::Negative),
    ];
    let acc = m.test(&points).unwrap();
    assert_eq!(acc, Accuracy { correct: 0, total: 3 });
}

#[test]
fn evaluate_mixed_labels_counts_exactly() {
    let m = model_with_detector();
    let points = vec![
        (Point { x: 9_100_000, y: 9_100_000 }, Class::Negative),
        (Point { x: 1_000_000, y: 1_000_000 }, Class::Negative),
    ];
    let acc = m.test(&points).unwrap();
    assert_eq!(acc, Accuracy { correct: 1, total: 2 });
}

#[test]
fn evaluate_empty_input_is_an_error() {
    let m = model_with_detector();
    let res = m.test(&vec![]);
    assert_eq!(res, Err(Error::EmptyInputError));
}

#[test]
fn evaluate_reports_index_of_bad_point() {
    let m = model_with_detector();
    let points = vec![
        (Point { x: 0, y: 0 }, Class::Positive),
        (Point { x: MAX_RAW + 1, y: 0 }, Class::Positive),
    ];
    let res = m.test(&points);
    assert_eq!(res, Err(Error::InvalidPointError { index: 1 }));
}

#[test]
fn save_load_round_trip_restores_the_model() {
    let m = model_with_detector();
    let bytes = m.save();
    let r = Model::load(&bytes).unwrap();
    assert_eq!(r.detectors, m.detectors);
    assert_eq!(r.radius, m.radius);
    assert_eq!(r.maximums, m.maximums);
    assert_eq!(r.minimums, m.minimums);
    // classification agrees on every probe point
    let probes = vec![
        Point { x: 9_100_000, y: 9_100_000 },
        Point { x: 1_000_000, y: 1_000_000 },
        Point { x: 0, y: 0 },
        Point { x: 10 * SCALE, y: 10 * SCALE },
    ];
    for p in &probes {
        assert_eq!(r.eval(p).unwrap(), m.eval(p).unwrap());
    }
}

#[test]
fn save_load_round_trip_of_empty_model() {
    let m = Model::new();
    let bytes = m.save();
    let r = Model::load(&bytes).unwrap();
    assert_eq!(r.detectors, m.detectors);
    assert_eq!(r.radius, 0);
    assert_eq!(r.maximums, Point { x: 0, y: 0 });
    assert_eq!(r.minimums, Point { x: 0, y: 0 });
}

#[test]
fn save_writes_the_documented_text_format() {
    let m = model_with_detector();
    let bytes = m.save();
    let text = String::from_utf8(bytes).unwrap();
    assert_eq!(
        text,
        "{\"detectors\":[[900000,900000]],\"radius\":100000,\
         \"maximums\":[10000000,10000000],\"minimums\":[0,0]}"
    );
}

#[test]
fn save_encodes_negative_bounds() {
    let mut m = Model::new();
    m.minimums = Point { x: -3 * SCALE, y: -1 };
    m.maximums = Point { x: 3 * SCALE, y: 1 };
    let bytes = m.save();
    let text = String::from_utf8(bytes.clone()).unwrap();
    assert_eq!(
        text,
        "{\"detectors\":[],\"radius\":0,\"maximums\":[3000000,1],\"minimums\":[-3000000,-1]}"
    );
    let r = Model::load(&bytes).unwrap();
    assert_eq!(r.minimums, m.minimums);
    assert_eq!(r.maximums, m.maximums);
}

#[test]
fn load_rejects_garbage() {
    let res = Model::load(&b"not a model".to_vec());
    assert_eq!(res.err(), Some(Error::PersistenceError));
}

#[test]
fn load_rejects_truncated_input() {
    let m = model_with_detector();
    let mut bytes = m.save();
    bytes.pop();
    let res = Model::load(&bytes);
    assert_eq!(res.err(), Some(Error::PersistenceError));
}

#[test]
fn load_rejects_negative_radius() {
    let text = "{\"detectors\":[],\"radius\":-5,\"maximums\":[1,1],\"minimums\":[0,0]}";
    let res = Model::load(&text.as_bytes().to_vec());
    assert_eq!(res.err(), Some(Error::PersistenceError));
}

#[test]
fn load_accepts_hand_written_text() {
    let text = "{\"detectors\":[[1,2],[3,4]],\"radius\":7,\"maximums\":[10,20],\"minimums\":[-1,-2]}";
    let m = Model::load(&text.as_bytes().to_vec()).unwrap();
    assert_eq!(m.detectors, vec![Point { x: 1, y: 2 }, Point { x: 3, y: 4 }]);
    assert_eq!(m.radius, 7);
    assert_eq!(m.maximums, Point { x: 10, y: 20 });
    assert_eq!(m.minimums, Point { x: -1, y: -2 });
}

#[test]
fn boundary_distance_counts_as_within() {
    // distance exactly equal to the radius is "within" (inclusive policy)
    let mut index = SpatialIndex::new();
    index.insert(Point { x: 0, y: 0 });
    assert!(index.any_within(&Point { x: 100_000, y: 0 }, 100_000));
    assert!(!index.any_within(&Point { x: 100_001, y: 0 }, 100_000));
}
