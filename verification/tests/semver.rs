use semver_cond::semver::{ParseError, Version};

#[test]
fn semver_simple_case() {
    let v = "1.0.0";
    let version = Version::parse(v).unwrap();
    assert_eq!(version.major, 1);
    assert_eq!(version.minor, 0);
    assert_eq!(version.patch, 0);

    let v = "20";
    let version = Version::parse(v).unwrap();
    assert_eq!(version.major, 20);
    assert_eq!(version.minor, 0);
    assert_eq!(version.patch, 0);

    let v = "23.32";
    let version = Version::parse(v).unwrap();
    assert_eq!(version.major, 23);
    assert_eq!(version.minor, 32);
    assert_eq!(version.patch, 0);

    let v = "1.2.196";
    let version = Version::parse(v).unwrap();
    assert_eq!(version.major, 1);
    assert_eq!(version.minor, 2);
    assert_eq!(version.patch, 196);

    let v = ".1.1";
    let version = Version::parse(v).unwrap_err();
    assert_eq!(version, ParseError::InvalidTokenAt(0));

    let v = "..1";
    let version = Version::parse(v).unwrap_err();
    assert_eq!(version, ParseError::InvalidTokenAt(0));

    let v = "1..";
    let version = Version::parse(v).unwrap_err();
    assert_eq!(version, ParseError::InvalidTokenAt(2));

    let v = "1.0.0.";
    let version = Version::parse(v).unwrap_err();
    assert_eq!(version, ParseError::InvalidTokenAt(5));

    let v = "1.0.0.12";
    let version = Version::parse(v).unwrap_err();
    assert_eq!(version, ParseError::InvalidTokenAt(5));
}
