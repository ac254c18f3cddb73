use t1_fuzzy::cylinder::T1MFCylinder;
use t1_fuzzy::discretised::T1MFDiscretised;
use t1_fuzzy::errors::FuzzyError;
use t1_fuzzy::points::{Extended, Interval, SamplePoint};
use t1_fuzzy::prototype::T1MFPrototype;

#[test]
fn cylinder_is_constant_everywhere() {
    let c = T1MFCylinder::new(String::from("firing"), 700_000).unwrap();
    assert_eq!(c.get_fs(0), 700_000);
    assert_eq!(c.get_fs(-5_000_000_000), 700_000);
    assert_eq!(c.get_fs(999_999_999_999), 700_000);
}

#[test]
fn cylinder_alpha_cut_is_all_or_nothing() {
    let c = T1MFCylinder::new(String::from("firing"), 700_000).unwrap();
    assert_eq!(c.get_alpha_cut(800_000), None);
    assert_eq!(
        c.get_alpha_cut(500_000),
        Some(Interval {
            low: Extended::NegInf,
            high: Extended::PosInf
        })
    );
    assert_eq!(
        c.get_alpha_cut(700_000),
        Some(Interval {
            low: Extended::NegInf,
            high: Extended::PosInf
        })
    );
}

#[test]
fn cylinder_rejects_degree_out_of_range() {
    let too_high = T1MFCylinder::new(String::from("bad"), 1_500_000);
    assert!(matches!(too_high, Err(FuzzyError::ConstructionError)));
    let negative = T1MFCylinder::new(String::from("bad"), -1);
    assert!(matches!(negative, Err(FuzzyError::ConstructionError)));
}

#[test]
fn cylinder_support_spans_the_real_line() {
    let c = T1MFCylinder::new(String::from("firing"), 700_000).unwrap();
    assert_eq!(
        c.get_support(),
        Interval {
            low: Extended::NegInf,
            high: Extended::PosInf
        }
    );
    assert!(!c.is_left_shoulder());
    assert!(!c.is_right_shoulder());
    assert_eq!(c.name(), "firing");
}

#[test]
fn cylinder_peak_is_unsupported() {
    let c = T1MFCylinder::new(String::from("firing"), 700_000).unwrap();
    assert_eq!(c.get_peak(), Err(FuzzyError::UnsupportedCapability));
}

#[test]
fn compare_to_is_unsupported_on_all_variants() {
    let c = T1MFCylinder::new(String::from("firing"), 700_000).unwrap();
    let mut d = T1MFDiscretised::new(String::from("d"), None);
    d.add_point(SamplePoint::new(0, 500_000));
    assert_eq!(c.compare_to(&d), Err(FuzzyError::UnsupportedCapability));
    assert_eq!(d.compare_to(&c), Err(FuzzyError::UnsupportedCapability));
}

#[test]
fn cylinder_string_rep_names_the_degree() {
    let c = T1MFCylinder::new(String::from("firing"), 700_000).unwrap();
    assert_eq!(
        c.to_string_rep(),
        "firing - Cylindrical extension at: 700000"
    );
}
