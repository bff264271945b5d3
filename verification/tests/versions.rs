use cot_site::versions::{
    all_versions, canonicalize_version_string, Version, LATEST_VERSION, MASTER_VERSION,
};

#[test]
fn lib_test_version_parsing() {
    let v = Version::from_str("v0.5").unwrap();
    assert_eq!(v.to_string(), "0.5.0");

    let v = Version::from_str("0.5").unwrap();
    assert_eq!(v.to_string(), "0.5.0");

    let v = Version::from_str("master").unwrap();
    assert_eq!(v.to_string(), canonicalize_version_string(LATEST_VERSION));

    let v = Version::from_str("").unwrap();
    assert_eq!(v.to_string(), canonicalize_version_string(LATEST_VERSION));
}

#[test]
fn utils_test_version_parsing() {
    let v = Version::from_str("v0.5").unwrap();
    assert_eq!(v.to_string(), "0.5.0");

    let v = Version::from_str("0.5").unwrap();
    assert_eq!(v.to_string(), "0.5.0");

    let v = Version::from_str("master").unwrap();
    assert_eq!(v.to_string(), canonicalize_version_string(LATEST_VERSION));

    let v = Version::from_str("").unwrap();
    assert_eq!(v.to_string(), canonicalize_version_string(LATEST_VERSION));
}

#[test]
fn utils_test_canonicalize_version_string() {
    assert_eq!(canonicalize_version_string("v0.5"), "0.5.0");
    assert_eq!(canonicalize_version_string("0.5"), "0.5.0");
    assert_eq!(canonicalize_version_string("v0.5.1"), "0.5.1");
    assert_eq!(canonicalize_version_string("0.5.1"), "0.5.1");
}

#[test]
fn a_bare_major_number_gets_minor_and_patch() {
    assert_eq!(canonicalize_version_string("1"), "1.0.0");
    assert_eq!(canonicalize_version_string("v2"), "2.0.0");
    assert_eq!(canonicalize_version_string(""), ".0.0");
}

#[test]
fn every_leading_v_is_dropped_and_no_other() {
    assert_eq!(canonicalize_version_string("vvv1.2"), "1.2.0");
    assert_eq!(canonicalize_version_string("1.v2"), "1.v2.0");
    assert_eq!(canonicalize_version_string("V1"), "V1.0.0");
}

#[test]
fn more_than_three_parts_are_left_alone() {
    assert_eq!(canonicalize_version_string("1.2.3.4"), "1.2.3.4");
    assert_eq!(canonicalize_version_string("v1.2.3-rc.1"), "1.2.3-rc.1");
    assert_eq!(canonicalize_version_string("1.2-rc.1"), "1.2-rc.1");
}

#[test]
fn a_new_version_has_its_three_numbers() {
    let v = Version::new(0, 5, 0);
    assert_eq!(v.to_string(), "0.5.0");
    assert_eq!(v.major(), 0);
    assert_eq!(v.minor(), 5);
    assert_eq!(v.patch(), 0);
    let w = Version::new(12, 0, 345);
    assert_eq!(w.to_string(), "12.0.345");
    assert_eq!(w.docs_segment(), "12.0");
    let big = Version::new(u64::MAX, 10, 100);
    assert_eq!(big.to_string(), "18446744073709551615.10.100");
}

#[test]
fn parsing_reads_the_numbers() {
    let v = Version::from_str("v1.22.333").unwrap();
    assert_eq!((v.major(), v.minor(), v.patch()), (1, 22, 333));
    assert_eq!(v, Version::new(1, 22, 333));
    assert_eq!(v.docs_segment(), "1.22");
}

#[test]
fn pre_release_and_build_are_kept() {
    let v = Version::from_str("1.2.3-alpha.1+build.5").unwrap();
    assert_eq!(v.to_string(), "1.2.3-alpha.1+build.5");
    assert_eq!(v.docs_segment(), "1.2");
    let w = Version::from_str("1.2.3+exp").unwrap();
    assert_eq!(w.to_string(), "1.2.3+exp");
    let x = Version::from_str("v1.2.3-rc1").unwrap();
    assert_eq!(x.to_string(), "1.2.3-rc1");
    assert_ne!(x, Version::new(1, 2, 3));
}

#[test]
fn what_is_no_version_is_an_error() {
    for text in ["latest", "1.2.3.4", "v", "1.x", "01.2.3", "1.2.3-", " 1.2.3"] {
        let err = Version::from_str(text).unwrap_err();
        assert!(
            err.to_string().starts_with("invalid version string: "),
            "{}",
            err.to_string()
        );
        assert!(err.to_string().len() > "invalid version string: ".len());
    }
}

#[test]
fn the_listed_versions_start_with_the_development_branch() {
    assert_eq!(MASTER_VERSION, "master");
    assert_eq!(LATEST_VERSION, "v0.5");
    assert_eq!(
        all_versions(),
        vec!["master", "v0.5", "v0.4", "v0.3", "v0.2", "v0.1"]
    );
    for name in all_versions() {
        assert!(Version::from_str(name).is_ok());
    }
}

#[test]
fn a_version_is_parsed_from_a_string_in_the_usual_way() {
    let v: Version = "v0.5".parse().unwrap();
    assert_eq!(v, Version::new(0, 5, 0));
    let v = "master".parse::<Version>().unwrap();
    assert_eq!(v.to_string(), "0.5.0");
    let v = "1.2.3-rc.1".parse::<Version>().unwrap();
    assert_eq!(v.to_string(), "1.2.3-rc.1");
    let err = "not a version".parse::<Version>().unwrap_err();
    assert!(err.to_string().starts_with("invalid version string: "));
    assert_eq!(
        "0.5".parse::<Version>().unwrap(),
        Version::from_str("0.5").unwrap()
    );
}
