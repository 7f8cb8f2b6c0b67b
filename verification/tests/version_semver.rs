use semver_cond::version::ParseError;
use semver_cond::version::semver::Version;

#[test]
fn simple_case() {
    let v = "1.0.0";
    let version = Version::parse(v).unwrap();
    assert_eq!(version.major, 1);
    assert_eq!(version.minor, 0);
    assert_eq!(version.patch, 0);

    let v = "=2.1.1";
    let version = Version::parse(v).unwrap();
    assert_eq!(version.major, 2);
    assert_eq!(version.minor, 1);
    assert_eq!(version.patch, 1);

    let v = "v5.1.123";
    let version = Version::parse(v).unwrap();
    assert_eq!(version.major, 5);
    assert_eq!(version.minor, 1);
    assert_eq!(version.patch, 123);

    let v = "20";
    let version = Version::parse(v).unwrap();
    assert_eq!(version.major, 20);
    assert_eq!(version.minor, 0);
    assert_eq!(version.patch, 0);

    let v = "23.32";
    let version = Version::parse(v).unwrap();
    assert_eq!(version.major, 23);
    assert_eq!(version.minor, 32);
    assert_eq!(version.patch, 0);

    let v = "1.2.196";
    let version = Version::parse(v).unwrap();
    assert_eq!(version.major, 1);
    assert_eq!(version.minor, 2);
    assert_eq!(version.patch, 196);

    let v = ".1.1";
    let version = Version::parse(v).unwrap_err();
    assert_eq!(version, ParseError::InvalidTokenAt(0));

    let v = "..1";
    let version = Version::parse(v).unwrap_err();
    assert_eq!(version, ParseError::InvalidTokenAt(0));

    let v = "1..";
    let version = Version::parse(v).unwrap_err();
    assert_eq!(version, ParseError::InvalidTokenAt(2));

    let v = "1.0.0.";
    let version = Version::parse(v).unwrap_err();
    assert_eq!(version, ParseError::InvalidTokenAt(5));

    let v = "1.0.0.12";
    let version = Version::parse(v).unwrap_err();
    assert_eq!(version, ParseError::InvalidTokenAt(5));
}

#[test]
fn pre_release() {
    let v = "1.0.0-alpha";
    let version = Version::parse(v).unwrap();
    assert_eq!(version.major, 1);
    assert_eq!(version.minor, 0);
    assert_eq!(version.patch, 0);
    assert_eq!(version.pre_release.len(), 1);
    assert_eq!(version.pre_release[0], "alpha".to_owned());

    let v = "1.50-alpha.beta";
    let version = Version::parse(v).unwrap();
    assert_eq!(version.major, 1);
    assert_eq!(version.minor, 50);
    assert_eq!(version.patch, 0);
    assert_eq!(version.pre_release.len(), 2);
    assert_eq!(version.pre_release[0], "alpha".to_owned());
    assert_eq!(version.pre_release[1], "beta".to_owned());

    let v = "50-alpha.beta.--.omega.123.th3t4";
    let version = Version::parse(v).unwrap();
    assert_eq!(version.major, 50);
    assert_eq!(version.minor, 0);
    assert_eq!(version.patch, 0);
    assert_eq!(version.pre_release.len(), 6);
    assert_eq!(version.pre_release[0], "alpha".to_owned());
    assert_eq!(version.pre_release[1], "beta".to_owned());
    assert_eq!(version.pre_release[2], "--".to_owned());
    assert_eq!(version.pre_release[3], "omega".to_owned());
    assert_eq!(version.pre_release[4], "123".to_owned());
    assert_eq!(version.pre_release[5], "th3t4".to_owned());

    let v = "50-.beta.--.omega.123.th3t4";
    let version = Version::parse(v).unwrap_err();
    assert_eq!(version, ParseError::InvalidTokenAt(2));

    let v = "1.0.0-rc..1";
    let version = Version::parse(v).unwrap_err();
    assert_eq!(version, ParseError::InvalidTokenAt(8));
}

#[test]
fn metadata() {
    let v = "1.0.0-alpha+test.meta";
    let version = Version::parse(v).unwrap();
    assert_eq!(version.major, 1);
    assert_eq!(version.minor, 0);
    assert_eq!(version.patch, 0);
    assert_eq!(version.pre_release.len(), 1);
    assert_eq!(version.pre_release[0], "alpha".to_owned());
    assert_eq!(version.metadata.len(), 2);
    assert_eq!(version.metadata[0], "test".to_owned());
    assert_eq!(version.metadata[1], "meta".to_owned());

    let v = "1.50-alpha.beta+123.321.23";
    let version = Version::parse(v).unwrap();
    assert_eq!(version.major, 1);
    assert_eq!(version.minor, 50);
    assert_eq!(version.patch, 0);
    assert_eq!(version.pre_release.len(), 2);
    assert_eq!(version.pre_release[0], "alpha".to_owned());
    assert_eq!(version.pre_release[1], "beta".to_owned());
    assert_eq!(version.metadata.len(), 3);
    assert_eq!(version.metadata[0], "123".to_owned());
    assert_eq!(version.metadata[1], "321".to_owned());
    assert_eq!(version.metadata[2], "23".to_owned());

    let v = "50+alpha.beta.--.omega.123.th3t4";
    let version = Version::parse(v).unwrap();
    assert_eq!(version.major, 50);
    assert_eq!(version.minor, 0);
    assert_eq!(version.patch, 0);
    assert_eq!(version.pre_release.len(), 0);
    assert_eq!(version.metadata.len(), 6);
    assert_eq!(version.metadata[0], "alpha".to_owned());
    assert_eq!(version.metadata[1], "beta".to_owned());
    assert_eq!(version.metadata[2], "--".to_owned());
    assert_eq!(version.metadata[3], "omega".to_owned());
    assert_eq!(version.metadata[4], "123".to_owned());
    assert_eq!(version.metadata[5], "th3t4".to_owned());

    let v = "50+.beta.--.omega.123.th3t4";
    let version = Version::parse(v).unwrap_err();
    assert_eq!(version, ParseError::InvalidTokenAt(2));

    let v = "1.0.0+rc..1";
    let version = Version::parse(v).unwrap_err();
    assert_eq!(version, ParseError::InvalidTokenAt(8));
}
