use semver_cond::version::condition::{Condition, ConditionRange};
use semver_cond::version::semver::Version;

#[test]
fn basic_cases() {
    let cond = "*";
    let cond = Condition::parse(cond).unwrap();
    assert!(matches!(cond, Condition::Any));

    let cond = "=2.3.4";
    let cond = Condition::parse(cond).unwrap();
    assert_eq!(
        cond,
        Condition::Simple(Version {
            major: 2,
            minor: 3,
            patch: 4,
            ..Default::default()
        }),
    );

    let cond = "~2.3";
    let cond = Condition::parse(cond).unwrap();
    assert_eq!(
        cond,
        Condition::Compatible(Version {
            major: 2,
            minor: 3,
            ..Default::default()
        }),
    );

    let cond = "^52.13.194";
    let cond = Condition::parse(cond).unwrap();
    assert_eq!(
        cond,
        Condition::CompatibleWithMostRecent(Version {
            major: 52,
            minor: 13,
            patch: 194,
            ..Default::default()
        }),
    );
}

#[test]
fn range_cases() {
    let cond = ">1.2.3";
    let cond = Condition::parse(cond).unwrap();
    assert_eq!(
        cond,
        Condition::Range(
            ConditionRange::Greater(Version {
                major: 1,
                minor: 2,
                patch: 3,
                metadata: vec![],
                pre_release: vec![]
            }),
            None
        ),
    );

    let cond = ">=4.15.3-beta.1";
    let cond = Condition::parse(cond).unwrap();
    assert_eq!(
        cond,
        Condition::Range(
            ConditionRange::GreaterEqual(Version {
                major: 4,
                minor: 15,
                patch: 3,
                metadata: vec![],
                pre_release: vec!["beta".to_string(), "1".to_string()]
            }),
            None
        ),
    );

    let cond = ">1.2.3 <4.15.3-beta.1";
    let cond = Condition::parse(cond).unwrap();
    assert_eq!(
        cond,
        Condition::Range(
            ConditionRange::Greater(Version {
                major: 1,
                minor: 2,
                patch: 3,
                metadata: vec![],
                pre_release: vec![]
            }),
            Some(ConditionRange::Less(Version {
                major: 4,
                minor: 15,
                patch: 3,
                metadata: vec![],
                pre_release: vec!["beta".to_string(), "1".to_string()]
            })),
        ),
    );

    let cond = ">=1.2.3 <4.15.3";
    let cond = Condition::parse(cond).unwrap();
    assert_eq!(
        cond,
        Condition::Range(
            ConditionRange::GreaterEqual(Version {
                major: 1,
                minor: 2,
                patch: 3,
                metadata: vec![],
                pre_release: vec![]
            }),
            Some(ConditionRange::Less(Version {
                major: 4,
                minor: 15,
                patch: 3,
                metadata: vec![],
                pre_release: vec![]
            })),
        ),
    );

    let cond = ">=1.2.3 <=4.15.3";
    let cond = Condition::parse(cond).unwrap();
    assert_eq!(
        cond,
        Condition::Range(
            ConditionRange::GreaterEqual(Version {
                major: 1,
                minor: 2,
                patch: 3,
                metadata: vec![],
                pre_release: vec![]
            }),
            Some(ConditionRange::LessEqual(Version {
                major: 4,
                minor: 15,
                patch: 3,
                metadata: vec![],
                pre_release: vec![]
            })),
        ),
    );
}

#[test]
fn composite_cases() {
    let cond = ">=1.2.3 <=4.15.3 || 5";
    let cond = Condition::parse(cond).unwrap();
    assert_eq!(
        cond,
        Condition::Composite(vec![
            Condition::Range(
                ConditionRange::GreaterEqual(Version {
                    major: 1,
                    minor: 2,
                    patch: 3,
                    ..Default::default()
                }),
                Some(ConditionRange::LessEqual(Version {
                    major: 4,
                    minor: 15,
                    patch: 3,
                    ..Default::default()
                })),
            ),
            Condition::Simple(Version {
                major: 5,
                ..Default::default()
            })
        ])
    );

    let cond = "1 || 2 || 3 || 4 || ^5";
    let cond = Condition::parse(cond).unwrap();
    assert_eq!(
        cond,
        Condition::Composite(vec![
            Condition::Simple(Version {
                major: 1,
                ..Default::default()
            }),
            Condition::Simple(Version {
                major: 2,
                ..Default::default()
            }),
            Condition::Simple(Version {
                major: 3,
                ..Default::default()
            }),
            Condition::Simple(Version {
                major: 4,
                ..Default::default()
            }),
            Condition::CompatibleWithMostRecent(Version {
                major: 5,
                ..Default::default()
            })
        ])
    );
}

#[test]
fn compare() {
    let cond = "*";
    let cond = Condition::parse(cond).unwrap();
    assert!(cond.compare(&Version {
        major: 1,
        minor: 12,
        patch: 90,
        ..Default::default()
    }));
    assert!(cond.compare(&Version {
        major: 6,
        minor: 12,
        patch: 9,
        ..Default::default()
    }));

    let cond = "6.12.9";
    let cond = Condition::parse(cond).unwrap();
    assert!(cond.compare(&Version {
        major: 6,
        minor: 12,
        patch: 9,
        ..Default::default()
    }));

    let cond = "~5.1";
    let cond = Condition::parse(cond).unwrap();
    assert!(cond.compare(&Version {
        major: 5,
        minor: 1,
        ..Default::default()
    }));
    assert!(cond.compare(&Version {
        major: 5,
        minor: 1,
        patch: 10,
        ..Default::default()
    }));
    assert!(!cond.compare(&Version {
        major: 5,
        minor: 2,
        patch: 12,
        ..Default::default()
    }));
    assert!(!cond.compare(&Version {
        major: 5,
        minor: 3,
        ..Default::default()
    }));

    let cond = "^5.1";
    let cond = Condition::parse(cond).unwrap();
    assert!(cond.compare(&Version {
        major: 5,
        minor: 1,
        patch: 0,
        ..Default::default()
    }));
    assert!(cond.compare(&Version {
        major: 5,
        minor: 99,
        patch: 10,
        ..Default::default()
    }));
    assert!(cond.compare(&Version {
        major: 5,
        minor: 1,
        patch: 12,
        ..Default::default()
    }));
    assert!(!cond.compare(&Version {
        major: 5,
        minor: 0,
        patch: 12,
        ..Default::default()
    }));

    let cond = ">5.2 <=8.2";
    let cond = Condition::parse(cond).unwrap();
    assert!(cond.compare(&Version {
        major: 5,
        minor: 3,
        ..Default::default()
    }));
    assert!(!cond.compare(&Version {
        major: 5,
        minor: 2,
        ..Default::default()
    }));
    assert!(cond.compare(&Version {
        major: 7,
        minor: 1,
        ..Default::default()
    }));
    assert!(cond.compare(&Version {
        major: 8,
        minor: 1,
        patch: 1200,
        ..Default::default()
    }));
    assert!(cond.compare(&Version {
        major: 8,
        minor: 1,
        patch: 12,
        ..Default::default()
    }));
    assert!(!cond.compare(&Version {
        major: 8,
        minor: 2,
        patch: 1,
        ..Default::default()
    }));
    assert!(!cond.compare(&Version {
        major: 8,
        minor: 3,
        ..Default::default()
    }));

    let cond = ">5.2";
    let cond = Condition::parse(cond).unwrap();
    assert!(cond.compare(&Version {
        major: 9999,
        minor: 99,
        ..Default::default()
    }));
    assert!(cond.compare(&Version {
        major: 5,
        minor: 3,
        ..Default::default()
    }));
    assert!(!cond.compare(&Version {
        major: 5,
        minor: 2,
        ..Default::default()
    }));

    let cond = ">=5.2";
    let cond = Condition::parse(cond).unwrap();
    assert!(cond.compare(&Version {
        major: 9999,
        minor: 99,
        ..Default::default()
    }));
    assert!(cond.compare(&Version {
        major: 5,
        minor: 3,
        ..Default::default()
    }));
    assert!(cond.compare(&Version {
        major: 5,
        minor: 2,
        ..Default::default()
    }));
    assert!(!cond.compare(&Version {
        major: 5,
        minor: 1,
        ..Default::default()
    }));
    assert!(!cond.compare(&Version {
        major: 4,
        minor: 1,
        ..Default::default()
    }));

    let cond = ">=5.2 <7";
    let cond = Condition::parse(cond).unwrap();
    assert!(!cond.compare(&Version {
        major: 7,
        minor: 9,
        ..Default::default()
    }));
    assert!(cond.compare(&Version {
        major: 5,
        minor: 3,
        ..Default::default()
    }));
    assert!(cond.compare(&Version {
        major: 5,
        minor: 2,
        ..Default::default()
    }));
    assert!(!cond.compare(&Version {
        major: 5,
        minor: 1,
        ..Default::default()
    }));
    assert!(!cond.compare(&Version {
        major: 7,
        ..Default::default()
    }));
    assert!(cond.compare(&Version {
        major: 6,
        ..Default::default()
    }));
    assert!(cond.compare(&Version {
        major: 6,
        minor: 99,
        ..Default::default()
    }));

    let cond = "1 || 2 || 3 || 4 || ^5";
    let cond = Condition::parse(cond).unwrap();
    assert!(cond.compare(&Version {
        major: 1,
        ..Default::default()
    }));
    assert!(cond.compare(&Version {
        major: 2,
        ..Default::default()
    }));
    assert!(cond.compare(&Version {
        major: 3,
        ..Default::default()
    }));
    assert!(cond.compare(&Version {
        major: 4,
        ..Default::default()
    }));
    assert!(cond.compare(&Version {
        major: 5,
        ..Default::default()
    }));
    assert!(cond.compare(&Version {
        major: 5,
        minor: 99,
        patch: 0,
        ..Default::default()
    }));
    assert!(cond.compare(&Version {
        major: 5,
        minor: 9,
        patch: 100,
        ..Default::default()
    }));
    assert!(!cond.compare(&Version {
        major: 6,
        ..Default::default()
    }));
    assert!(!cond.compare(&Version {
        major: 6,
        minor: 10,
        ..Default::default()
    }));
}
