use debkit::deb_version::{deb_str_cmp, Version, VersionConstraint, VersionError};
use std::cmp::Ordering;

fn v(s: &str) -> Version {
    match Version::parse(s) {
        Ok(ver) => ver,
        Err(e) => panic!("parse({:?}): {}", s, e.to_string()),
    }
}

#[test]
fn parse_simple() {
    let ver = v("1.0");
    assert_eq!(ver.epoch, 0);
    assert_eq!(ver.upstream, "1.0");
    assert_eq!(ver.revision, "");
}

#[test]
fn parse_with_revision() {
    let ver = v("1.0-1");
    assert_eq!(ver.epoch, 0);
    assert_eq!(ver.upstream, "1.0");
    assert_eq!(ver.revision, "1");
}

#[test]
fn parse_with_epoch() {
    let ver = v("2:3.4-5");
    assert_eq!(ver.epoch, 2);
    assert_eq!(ver.upstream, "3.4");
    assert_eq!(ver.revision, "5");
}

#[test]
fn parse_epoch_only_no_revision() {
    let ver = v("1:1.0");
    assert_eq!(ver.epoch, 1);
    assert_eq!(ver.upstream, "1.0");
    assert_eq!(ver.revision, "");
}

#[test]
fn parse_empty_returns_error() {
    assert!(matches!(Version::parse(""), Err(VersionError::EmptyString)));
}

#[test]
fn parse_invalid_epoch() {
    assert!(matches!(
        Version::parse("abc:1.0"),
        Err(VersionError::InvalidEpoch)
    ));
}

#[test]
fn parse_invalid_character() {
    assert!(matches!(
        Version::parse("1.0!foo"),
        Err(VersionError::InvalidCharacter('!'))
    ));
}

#[test]
fn display_no_epoch_no_revision() {
    assert_eq!(v("1.2.3").to_string(), "1.2.3");
}

#[test]
fn display_with_epoch_and_revision() {
    assert_eq!(v("2:1.0-3").to_string(), "2:1.0-3");
}

#[test]
fn epoch_1_beats_epoch_0() {
    assert!(v("1:1.0") > v("1.0"));
}

#[test]
fn higher_epoch_wins_regardless_of_upstream() {
    assert!(v("2:0.1") > v("1:99.99"));
}

#[test]
fn tilde_sorts_before_plain() {
    assert!(v("1.0~beta1") < v("1.0"));
}

#[test]
fn tilde_less_than_empty_revision() {
    assert!(v("1.0~beta") < v("1.0"));
    assert!(v("1.0") < v("1.0-1"));
}

#[test]
fn double_tilde_sorts_before_single() {
    assert!(v("1.0~~") < v("1.0~"));
}

#[test]
fn letters_sort_before_other_chars() {
    assert!(v("1.0a") < v("1.0+"));
}

#[test]
fn longer_non_digit_segment_after_shorter() {
    assert!(v("1.0a") < v("1.0ab"));
}

#[test]
fn leading_zeros_ignored_in_digit_segment() {
    assert_eq!(v("1.01").cmp(&v("1.1")), Ordering::Equal);
}

#[test]
fn larger_digit_segment_wins() {
    assert!(v("1.10") > v("1.9"));
}

#[test]
fn revision_comparison() {
    assert!(v("1.0-2") > v("1.0-1"));
    assert!(v("1.0-1") < v("1.0-2"));
}

#[test]
fn constraint_strictly_earlier() {
    let c = VersionConstraint::parse("<< 2.0").unwrap();
    assert!(c.satisfies(&v("1.9")));
    assert!(!c.satisfies(&v("2.0")));
    assert!(!c.satisfies(&v("2.1")));
}

#[test]
fn constraint_earlier_or_equal() {
    let c = VersionConstraint::parse("<= 2.0").unwrap();
    assert!(c.satisfies(&v("1.9")));
    assert!(c.satisfies(&v("2.0")));
    assert!(!c.satisfies(&v("2.1")));
}

#[test]
fn constraint_equal() {
    let c = VersionConstraint::parse("= 2.0").unwrap();
    assert!(!c.satisfies(&v("1.9")));
    assert!(c.satisfies(&v("2.0")));
    assert!(!c.satisfies(&v("2.1")));
}

#[test]
fn constraint_later_or_equal() {
    let c = VersionConstraint::parse(">= 2.0").unwrap();
    assert!(!c.satisfies(&v("1.9")));
    assert!(c.satisfies(&v("2.0")));
    assert!(c.satisfies(&v("2.1")));
}

#[test]
fn constraint_strictly_later() {
    let c = VersionConstraint::parse(">> 2.0").unwrap();
    assert!(!c.satisfies(&v("1.9")));
    assert!(!c.satisfies(&v("2.0")));
    assert!(c.satisfies(&v("2.1")));
}

#[test]
fn constraint_with_epoch() {
    let c = VersionConstraint::parse(">= 1:2.0-1").unwrap();
    assert!(c.satisfies(&v("1:2.0-1")));
    assert!(!c.satisfies(&v("2.0-1")));
}

#[test]
fn constraint_display() {
    let c = VersionConstraint::parse(">= 1.0").unwrap();
    assert_eq!(c.to_string(), ">= 1.0");
}

#[test]
fn constraint_invalid_op() {
    assert!(VersionConstraint::parse("~~ 1.0").is_err());
}

// ── Further cases ────────────────────────────────────────────────────────────

#[test]
fn version_order_is_antisymmetric_on_examples() {
    let a = v("1.0~rc1-2");
    let b = v("1.0-1");
    assert_eq!(a.cmp(&b), Ordering::Less);
    assert_eq!(b.cmp(&a), Ordering::Greater);
    assert_eq!(a.cmp(&a), Ordering::Equal);
}

#[test]
fn version_round_trips_through_to_string() {
    for s in ["1.0", "2:1.0-3", "1:0.9~beta+dfsg-1ubuntu2", "7.4.052-1"] {
        let ver = v(s);
        assert_eq!(ver.to_string(), s);
        assert_eq!(v(&ver.to_string()), ver);
    }
}

#[test]
fn constraint_op_to_string_all_variants() {
    for op in ["<<", "<=", "=", ">=", ">>"] {
        let c = VersionConstraint::parse(&format!("{} 1.0", op)).unwrap();
        assert_eq!(c.to_string(), format!("{} 1.0", op));
    }
}

#[test]
fn invalid_constraint_error_variant() {
    assert!(matches!(
        VersionConstraint::parse("~~ 1.0"),
        Err(VersionError::InvalidConstraint(_))
    ));
}

#[test]
fn version_error_messages() {
    assert_eq!(VersionError::EmptyString.to_string(), "version string is empty");
    assert_eq!(VersionError::InvalidEpoch.to_string(), "invalid epoch in version string");
    assert_eq!(
        VersionError::InvalidCharacter('!').to_string(),
        "invalid character '!' in version string"
    );
    assert_eq!(
        VersionError::InvalidConstraint("bad".to_string()).to_string(),
        "invalid version constraint: bad"
    );
}

#[test]
fn version_order_is_transitive_on_examples() {
    let a = v("1.0~beta1");
    let b = v("1.0");
    let c = v("1:0.5");
    assert_eq!(a.cmp(&b), Ordering::Less);
    assert_eq!(b.cmp(&c), Ordering::Less);
    assert_eq!(a.cmp(&c), Ordering::Less);
    let x = v("1.01");
    let y = v("1.1");
    let z = v("1.001");
    assert_eq!(x.cmp(&y), Ordering::Equal);
    assert_eq!(y.cmp(&z), Ordering::Equal);
    assert_eq!(x.cmp(&z), Ordering::Equal);
}

#[test]
fn long_digit_runs_compare_as_unbounded_numbers() {
    assert_eq!(deb_str_cmp("99999999999999999999999", "1"), Ordering::Greater);
    let big = "9".repeat(30);
    let bigger = format!("1{}", "0".repeat(30));
    assert_eq!(deb_str_cmp(&format!("0000{big}"), &big), Ordering::Equal);
    assert_eq!(deb_str_cmp(&big, &bigger), Ordering::Less);
    assert_eq!(deb_str_cmp("0001", "1"), Ordering::Equal);
}

#[test]
fn every_parsed_version_round_trips() {
    for s in ["0:1:2", "1-2-", "1:-", "0:a-b:c", "-x", "2:1.0-3", "1.2.3"] {
        let v = Version::parse(s).unwrap();
        let w = Version::parse(&v.to_string()).unwrap();
        assert_eq!(w.cmp(&v), Ordering::Equal, "{s}");
        assert_eq!(w.to_string(), v.to_string(), "{s}");
    }
    assert_eq!(v("0:1:2").to_string(), "0:1:2");
    assert_eq!(v("1-2-").to_string(), "1-2-");
}
