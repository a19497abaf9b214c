use smithy::cli::{ExtendedFilename, RegionNameError};
use smithy::guard::MtimeGuard;

#[test]
fn region_names_parse_their_coordinates() {
    let f = ExtendedFilename::parse(b"r.1.2.mca").unwrap();
    assert_eq!(f.fname, b"r.1.2.mca".to_vec());
    assert_eq!((f.x, f.z), (1, 2));

    let f = ExtendedFilename::parse(b"saves/world/region/r.-12.34.mca").unwrap();
    assert_eq!((f.x, f.z), (-12, 34));

    let f = ExtendedFilename::parse(b"r.5.r.1.2.mca").unwrap();
    assert_eq!((f.x, f.z), (1, 2));
}

#[test]
fn region_names_without_the_form_are_refused() {
    assert_eq!(
        ExtendedFilename::parse(b"region.mca").unwrap_err(),
        RegionNameError::NoMatch
    );
    assert_eq!(
        ExtendedFilename::parse(b"r.1.2.mcax").unwrap_err(),
        RegionNameError::NoMatch
    );
    assert_eq!(
        ExtendedFilename::parse(b"r..2.mca").unwrap_err(),
        RegionNameError::NoMatch
    );
    assert_eq!(
        ExtendedFilename::parse(b"r.1.2.3.mca").unwrap_err(),
        RegionNameError::NoMatch
    );
    assert_eq!(
        ExtendedFilename::parse(b"").unwrap_err(),
        RegionNameError::NoMatch
    );
    assert_eq!(
        ExtendedFilename::parse(b"r.--1.2.mca").unwrap_err(),
        RegionNameError::NoMatch
    );
}

#[test]
fn region_coordinates_must_fit_the_machine_word() {
    assert_eq!(
        ExtendedFilename::parse(b"r.99999999999999999999.1.mca").unwrap_err(),
        RegionNameError::XRange
    );
    assert_eq!(
        ExtendedFilename::parse(b"r.1.99999999999999999999.mca").unwrap_err(),
        RegionNameError::ZRange
    );
    let f = ExtendedFilename::parse(b"r.-9223372036854775808.0.mca").unwrap();
    assert_eq!(f.x, isize::MIN);
}

#[test]
fn guard_notices_newer_modification_times() {
    let mut g = MtimeGuard::new(100);
    assert!(g.observe(Some(150), 200));
    assert!(!g.observe(Some(150), 300));
    assert!(g.observe(None, 400));
    assert!(!g.observe(Some(399), 500));
}
