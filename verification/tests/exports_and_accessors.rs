use t1_fuzzy::discretised::T1MFDiscretised;
use t1_fuzzy::points::{Extended, SamplePoint};
use t1_fuzzy::prototype::T1MFPrototype;

fn triangle() -> T1MFDiscretised {
    let points = vec![
        SamplePoint::new(-1_000_000, 0),
        SamplePoint::new(0, 1_000_000),
        SamplePoint::new(1_000_000, 0),
    ];
    T1MFDiscretised::new(String::from("TriangularMF"), Some(points))
}

#[test]
fn string_rep_lists_sorted_samples() {
    let mut mf = triangle();
    assert_eq!(
        mf.to_string_rep(),
        "0 / -1000000\n1000000 / 0\n0 / 1000000\n"
    );
}

#[test]
fn export_rows_lists_x_then_degree() {
    let mut mf = triangle();
    assert_eq!(
        mf.export_rows(),
        "-1000000,0\n0,1000000\n1000000,0\n"
    );
}

#[test]
fn high_res_rows_resample_the_support() {
    let mut mf = T1MFDiscretised::new(String::from("ramp"), None);
    mf.add_point(SamplePoint::new(0, 0));
    mf.add_point(SamplePoint::new(1_000_000, 1_000_000));
    assert_eq!(
        mf.export_rows_high_res(2),
        Some(String::from("0,0\n1000000,1000000\n"))
    );
    assert_eq!(
        mf.export_rows_high_res(3),
        Some(String::from("0,0\n500000,500000\n1000000,1000000\n"))
    );
}

#[test]
fn high_res_rows_undetermined_for_shoulders() {
    let mut mf = triangle();
    mf.set_right_shoulder_set(900_000);
    assert_eq!(mf.export_rows_high_res(5), None);
}

#[test]
fn points_are_sorted_and_indexable() {
    let mut mf = T1MFDiscretised::new(String::from("acc"), None);
    mf.add_points(vec![
        SamplePoint::new(300, 100_000),
        SamplePoint::new(-200, 900_000),
    ]);
    assert_eq!(mf.get_point_at(0), Some(SamplePoint::new(-200, 900_000)));
    assert_eq!(mf.get_point_at(1), Some(SamplePoint::new(300, 100_000)));
    assert_eq!(mf.get_point_at(2), None);
    assert_eq!(
        mf.get_points(),
        vec![
            SamplePoint::new(-200, 900_000),
            SamplePoint::new(300, 100_000)
        ]
    );
}

#[test]
fn discretisation_level_is_tunable() {
    let mut mf = triangle();
    assert_eq!(mf.get_alpha_cut_discretisation_level(), 60);
    mf.set_alpha_cut_discretisation_level(100);
    assert_eq!(mf.get_alpha_cut_discretisation_level(), 100);
}

#[test]
fn shoulder_setters_mark_the_flags() {
    let mut mf = triangle();
    assert!(!mf.is_left_shoulder());
    assert!(!mf.is_right_shoulder());
    mf.set_right_shoulder_set(800_000);
    assert!(mf.is_right_shoulder());
    assert_eq!(mf.get_support().high, Extended::PosInf);
    assert_eq!(mf.name(), "TriangularMF");
}

#[test]
fn right_shoulder_saturates_membership() {
    let mut mf = triangle();
    mf.set_right_shoulder_set(500_000);
    assert_eq!(mf.get_fs(600_000), 1_000_000);
}

#[test]
fn negative_values_render_in_decimal() {
    let mut mf = T1MFDiscretised::new(String::from("neg"), None);
    mf.add_point(SamplePoint::new(-42, 7));
    assert_eq!(mf.to_string_rep(), "7 / -42\n");
    assert_eq!(mf.export_rows(), "-42,7\n");
}
