use semver_cond::semver;
use semver_cond::version::ParseError;
use semver_cond::version::condition::Condition;
use semver_cond::version::semver::Version;
use semver_cond::version::token::{Token, tokenize};

#[test]
fn tokenize_basic() {
    let tokens = tokenize("1.2.3-alpha").unwrap();
    assert_eq!(
        tokens,
        vec![
            Token::Number(1),
            Token::Dot,
            Token::Number(2),
            Token::Dot,
            Token::Number(3),
            Token::Hyphen,
            Token::AlphaNumeric("alpha".to_owned()),
        ]
    );

    let tokens = tokenize(">=1.0, <2 || *").unwrap();
    assert_eq!(
        tokens,
        vec![
            Token::GreaterEqual,
            Token::Number(1),
            Token::Dot,
            Token::Number(0),
            Token::Less,
            Token::Number(2),
            Token::Or,
            Token::Asterisk,
        ]
    );
}

#[test]
fn tokenize_zero_runs() {
    // A lone `0` is its own token, so a leading zero splits the run.
    let tokens = tokenize("01").unwrap();
    assert_eq!(tokens, vec![Token::Number(0), Token::Number(1)]);

    // A run too large for `u32` stays an alphanumeric lexeme.
    let tokens = tokenize("99999999999").unwrap();
    assert_eq!(tokens, vec![Token::AlphaNumeric("99999999999".to_owned())]);
}

#[test]
fn tokenize_rejects() {
    assert_eq!(tokenize("1.2!").unwrap_err(), ParseError::InvalidToken('!'));
    assert_eq!(tokenize("1 | 2").unwrap_err(), ParseError::InvalidToken('|'));
}

#[test]
fn parse_error_variants() {
    assert_eq!(Version::parse("").unwrap_err(), ParseError::EmptyInput);
    assert_eq!(Version::parse("   ").unwrap_err(), ParseError::EmptyInput);
    assert_eq!(Version::parse(",").unwrap_err(), ParseError::EmptyTokenList);
    assert_eq!(Version::parse("1.2;3").unwrap_err(), ParseError::InvalidToken(';'));
    assert_eq!(Version::parse("-alpha").unwrap_err(), ParseError::MissingSymbolAt(0));
    // An oversized number is an alphanumeric lexeme, invalid in the core.
    assert_eq!(Version::parse("99999999999").unwrap_err(), ParseError::InvalidTokenAt(0));

    assert_eq!(Condition::parse("").unwrap_err(), ParseError::EmptyInput);
    assert_eq!(Condition::parse("^").unwrap_err(), ParseError::EmptyTokenList);
    assert_eq!(Condition::parse("1 ||").unwrap_err(), ParseError::EmptyTokenList);
    assert_eq!(Condition::parse("|| 1").unwrap_err(), ParseError::EmptyTokenList);
}

#[test]
fn parse_trims_and_strips() {
    let version = Version::parse("  1.2.3  ").unwrap();
    assert_eq!(version.major, 1);
    assert_eq!(version.minor, 2);
    assert_eq!(version.patch, 3);

    let version = Version::parse("\t=4.5.6\n").unwrap();
    assert_eq!(version.major, 4);
    assert_eq!(version.minor, 5);
    assert_eq!(version.patch, 6);
}

#[test]
fn display_version() {
    let version = Version::parse("1.2.3").unwrap();
    assert_eq!(version.to_display_string(), "1.2.3");

    let version = Version::parse("7").unwrap();
    assert_eq!(version.to_display_string(), "7.0.0");

    // Metadata is introduced by a hyphen, mirroring the pre-release list.
    let version = Version::parse("1.2.3-alpha.1+m.2").unwrap();
    assert_eq!(version.to_display_string(), "1.2.3-alpha.1-m.2");
}

#[test]
fn display_condition() {
    let cond = Condition::parse("*").unwrap();
    assert_eq!(cond.to_display_string(), "*");

    let cond = Condition::parse("~2.3").unwrap();
    assert_eq!(cond.to_display_string(), "~2.3.0");

    let cond = Condition::parse("^52.13.194").unwrap();
    assert_eq!(cond.to_display_string(), "^52.13.194");

    let cond = Condition::parse(">=1.2.3 <=4.15.3 || 5").unwrap();
    assert_eq!(cond.to_display_string(), ">=1.2.3 <=4.15.3 || 5.0.0");

    let cond = Condition::parse(">1.2").unwrap();
    assert_eq!(cond.to_display_string(), ">1.2.0");
}

#[test]
fn display_roundtrip() {
    for text in ["1.0.0", "23.32", "7", "0.0.1", "4294967295"] {
        let version = Version::parse(text).unwrap();
        let again = Version::parse(version.to_display_string().as_str()).unwrap();
        assert_eq!(version.major, again.major);
        assert_eq!(version.minor, again.minor);
        assert_eq!(version.patch, again.patch);
        assert_eq!(version, again);
    }
}

#[test]
fn version_equality() {
    let a = Version::parse("1.0.0-a.b+m").unwrap();
    let b = Version::parse("=1.0.0-a.b+m").unwrap();
    assert_eq!(a, b);

    let c = Version::parse("1.0.0-a.c+m").unwrap();
    assert_ne!(a, c);

    let d = Version::parse("1.0.0-a.b").unwrap();
    assert_ne!(a, d);

    assert_eq!(Version::default().major, 0);
    assert_eq!(Version::default().minor, 0);
    assert_eq!(Version::default().patch, 0);
    assert_eq!(Version::default().pre_release.len(), 0);
    assert_eq!(Version::default().metadata.len(), 0);
}

#[test]
fn star_matches_everything() {
    let cond = Condition::parse("*").unwrap();
    for text in ["0.0.0", "1.2.3", "4294967295.0.7", "9.9.9-rc.1+m"] {
        let version = Version::parse(text).unwrap();
        assert!(cond.compare(&version));
    }
    // Trailing tokens after `*` are tolerated.
    let cond = Condition::parse("* 1").unwrap();
    assert!(matches!(cond, Condition::Any));
}

#[test]
fn simple_comparison_uses_identifiers() {
    let cond = Condition::parse("1.0.0-alpha").unwrap();
    assert!(cond.compare(&Version::parse("1.0.0-alpha").unwrap()));
    assert!(!cond.compare(&Version::parse("1.0.0").unwrap()));
    assert!(!cond.compare(&Version::parse("1.0.0-beta").unwrap()));
}

#[test]
fn pre_release_numbers_render_canonically() {
    // `007` tokenizes as the numbers 0, 0 and 7, which cannot stand in a row.
    assert!(Version::parse("1.0.0-rc.007").is_err());

    // A numeric identifier is stored as its decimal rendering.
    let version = Version::parse("1.0.0-rc.42").unwrap();
    assert_eq!(version.pre_release, vec!["rc".to_owned(), "42".to_owned()]);
}

#[test]
fn reduced_parser_rejects_decorations() {
    // The reduced parser accepts digits, dots and separators only.
    assert_eq!(semver::Version::parse("=1.0.0").unwrap_err(), semver::ParseError::InvalidToken('='));
    assert_eq!(semver::Version::parse("").unwrap_err(), semver::ParseError::EmptyInput);
    assert_eq!(semver::Version::parse(" , ").unwrap_err(), semver::ParseError::EmptyTokenList);
    assert_eq!(
        semver::Version::parse("99999999999").unwrap_err(),
        semver::ParseError::InvalidTokenAt(0)
    );
    assert_eq!(
        semver::Version::parse("1.99999999999").unwrap_err(),
        semver::ParseError::InvalidTokenAt(2)
    );

    let version = semver::Version::parse(" 10.20.30 ").unwrap();
    assert_eq!(version.major, 10);
    assert_eq!(version.minor, 20);
    assert_eq!(version.patch, 30);

    // A trailing dot after a complete pair is tolerated.
    let version = semver::Version::parse("1.2.").unwrap();
    assert_eq!(version.major, 1);
    assert_eq!(version.minor, 2);
    assert_eq!(version.patch, 0);
}
