use t1_fuzzy::discretised::T1MFDiscretised;
use t1_fuzzy::points::{Extended, Interval, SamplePoint, SCALE, UNDEFINED};

// Domain values and degrees are in fixed-point units: SCALE units = 1.0.
fn triangle() -> T1MFDiscretised {
    let points = vec![
        SamplePoint::new(-1_000_000, 0),
        SamplePoint::new(0, 1_000_000),
        SamplePoint::new(1_000_000, 0),
    ];
    T1MFDiscretised::new(String::from("TriangularMF"), Some(points))
}

#[test]
fn triangle_membership_values() {
    let mut mf = triangle();
    assert_eq!(mf.get_fs(-1_000_000), 0);
    assert_eq!(mf.get_fs(-500_000), 500_000);
    assert_eq!(mf.get_fs(0), 1_000_000);
    assert_eq!(mf.get_fs(500_000), 500_000);
    assert_eq!(mf.get_fs(1_000_000), 0);
}

#[test]
fn triangle_peak_is_apex() {
    let mut mf = triangle();
    assert_eq!(mf.get_peak(), Some(0));
}

#[test]
fn triangle_centroid_is_zero() {
    let mut mf = triangle();
    assert_eq!(mf.get_defuzzified_centroid(), 0);
}

#[test]
fn triangle_alpha_cut_zero_is_support() {
    let mut mf = triangle();
    assert_eq!(
        mf.get_alpha_cut(0),
        Some(Interval {
            low: Extended::Fin(-1_000_000),
            high: Extended::Fin(1_000_000)
        })
    );
}

#[test]
fn triangle_alpha_cut_one_is_apex() {
    let mut mf = triangle();
    assert_eq!(
        mf.get_alpha_cut(SCALE),
        Some(Interval {
            low: Extended::Fin(0),
            high: Extended::Fin(0)
        })
    );
}

#[test]
fn triangle_alpha_cut_half_probes_symmetrically() {
    // 60 probes over [-1.0, 1.0]: step floor(2_000_000 / 59) = 33_898; the
    // first probe at or above degree 0.5 is probe 15 on either side.
    let mut mf = triangle();
    assert_eq!(
        mf.get_alpha_cut(500_000),
        Some(Interval {
            low: Extended::Fin(-491_530),
            high: Extended::Fin(491_530)
        })
    );
}

#[test]
fn membership_outside_support_is_zero() {
    let mut mf = triangle();
    assert_eq!(mf.get_fs(2_000_000), 0);
    assert_eq!(mf.get_fs(-2_000_000), 0);
}

#[test]
fn left_shoulder_saturates_membership() {
    let mut mf = triangle();
    mf.set_left_shoulder_set(-500_000);
    assert_eq!(mf.get_fs(-600_000), SCALE);
    // The recomputed support's lower bound becomes infinite.
    let supp = mf.get_support();
    assert_eq!(supp.low, Extended::NegInf);
    assert_eq!(supp.high, Extended::Fin(1_000_000));
}

#[test]
fn equal_x_inserts_collapse_to_max_degree() {
    let mut mf = T1MFDiscretised::new(String::from("merge"), None);
    mf.add_point(SamplePoint::new(1_000, 300_000));
    mf.add_point(SamplePoint::new(1_000, 800_000));
    assert_eq!(mf.get_number_of_points(), 2);
    let pts = mf.get_points();
    assert_eq!(pts.len(), 1);
    assert_eq!(pts[0], SamplePoint::new(1_000, 800_000));
    assert_eq!(mf.get_number_of_points(), 1);
}

#[test]
fn repeated_queries_are_idempotent() {
    let mut mf = T1MFDiscretised::new(String::from("idem"), None);
    mf.add_points(vec![
        SamplePoint::new(500_000, 250_000),
        SamplePoint::new(-200_000, 700_000),
        SamplePoint::new(500_000, 100_000),
    ]);
    let first_fs = mf.get_fs(0);
    let first_pts = mf.get_points();
    let first_rep = mf.to_string_rep();
    let second_fs = mf.get_fs(0);
    let second_pts = mf.get_points();
    let second_rep = mf.to_string_rep();
    assert_eq!(first_fs, second_fs);
    assert_eq!(first_pts, second_pts);
    assert_eq!(first_rep, second_rep);
    assert_eq!(mf.get_number_of_points(), 2);
}

#[test]
fn membership_at_sample_is_exact() {
    let mut mf = T1MFDiscretised::new(String::from("exact"), None);
    mf.add_points(vec![
        SamplePoint::new(0, 900_000),
        SamplePoint::new(500_000, 250_000),
        SamplePoint::new(1_000_000, 50_000),
    ]);
    assert_eq!(mf.get_fs(500_000), 250_000);
    assert_eq!(mf.get_fs(0), 900_000);
}

#[test]
fn interpolation_between_samples() {
    let mut mf = triangle();
    mf.sort();
    assert_eq!(mf.interpolate(0, -500_000, 1), 500_000);
    assert_eq!(mf.interpolate(1, 250_000, 2), 750_000);
}

#[test]
fn alpha_cut_one_defaults_to_zero_without_full_membership() {
    let mut mf = T1MFDiscretised::new(String::from("no-one"), None);
    mf.add_point(SamplePoint::new(0, 500_000));
    mf.add_point(SamplePoint::new(1_000_000, 300_000));
    assert_eq!(
        mf.get_alpha_cut(SCALE),
        Some(Interval {
            low: Extended::Fin(0),
            high: Extended::Fin(0)
        })
    );
}

#[test]
fn close_alpha_cut_bounds_collapse() {
    let mut mf = T1MFDiscretised::new(String::from("spike"), None);
    mf.add_point(SamplePoint::new(0, 600_000));
    assert_eq!(
        mf.get_alpha_cut(500_000),
        Some(Interval {
            low: Extended::Fin(0),
            high: Extended::Fin(0)
        })
    );
}

#[test]
fn empty_set_is_a_valid_degenerate_state() {
    let mut mf = T1MFDiscretised::new(String::from("empty"), None);
    assert_eq!(mf.get_fs(123), UNDEFINED);
    assert_eq!(mf.get_peak(), None);
    assert_eq!(mf.get_defuzzified_centroid(), 0);
    assert_eq!(
        mf.get_support(),
        Interval {
            low: Extended::Fin(0),
            high: Extended::Fin(0)
        }
    );
    assert_eq!(
        mf.get_alpha_cut(0),
        Some(Interval {
            low: Extended::Fin(0),
            high: Extended::Fin(0)
        })
    );
}

#[test]
fn plateau_peak_returns_midpoint() {
    let mut mf = T1MFDiscretised::new(String::from("plateau"), None);
    mf.add_points(vec![
        SamplePoint::new(0, 500_000),
        SamplePoint::new(1_000, 500_000),
        SamplePoint::new(2_000, 100_000),
    ]);
    assert_eq!(mf.get_peak(), Some(500));
}

#[test]
fn degenerate_set_centroid_is_zero() {
    let mut mf = T1MFDiscretised::new(String::from("flat"), None);
    mf.add_point(SamplePoint::new(-3_000, 0));
    mf.add_point(SamplePoint::new(7_000, 0));
    assert_eq!(mf.get_defuzzified_centroid(), 0);
}

#[test]
fn weighted_centroid_truncates_towards_zero() {
    let mut mf = T1MFDiscretised::new(String::from("weights"), None);
    mf.add_point(SamplePoint::new(0, 250_000));
    mf.add_point(SamplePoint::new(1_000, 750_000));
    // (0 * 250_000 + 1_000 * 750_000) / (250_000 + 750_000) = 750
    assert_eq!(mf.get_defuzzified_centroid(), 750);
}
