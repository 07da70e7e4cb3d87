use rpkg::debversion::{compare_parts, compare_with_op, DebianVersionNum, VersionRelation};

fn version(text: &str) -> DebianVersionNum {
    DebianVersionNum::parse(text).expect("a version")
}

fn order(a: &str, b: &str) -> i8 {
    version(a).compare(&version(b))
}

#[test]
fn numbers_are_compared_as_numbers() {
    assert_eq!(order("10.0", "2.0"), 1);
    assert_eq!(order("2.0", "10.0"), -1);
    assert!("10.0" < "2.0");
}

#[test]
fn leading_zeros_do_not_count() {
    assert_eq!(order("1.0", "1.00"), 0);
    assert_eq!(order("1.010", "1.10"), 0);
    assert_eq!(order("007", "7"), 0);
    assert_eq!(order("1.09", "1.10"), -1);
}

#[test]
fn longer_numbers_are_greater() {
    assert_eq!(order("100", "99"), 1);
    assert_eq!(order("99", "100"), -1);
    assert_eq!(order("123456789012345678901234567890", "123456789012345678901234567891"), -1);
    assert_eq!(order("1234567890123456789012345678901", "999999999999999999999999999999"), 1);
}

#[test]
fn tilde_sorts_before_everything() {
    assert_eq!(order("1.0~rc1", "1.0"), -1);
    assert_eq!(order("1.0~rc1", "1.0~rc2"), -1);
    assert_eq!(order("1.0~~", "1.0~"), -1);
    assert_eq!(order("1.0", "1.0~"), 1);
}

#[test]
fn letters_sort_before_other_bytes() {
    assert_eq!(order("1.0a", "1.0+"), -1);
    assert_eq!(order("1.0+", "1.0."), -1);
    assert_eq!(order("1.0a", "1.0b"), -1);
    assert_eq!(order("1.0Z", "1.0a"), -1);
    assert_eq!(order("1.0a", "1.0"), 1);
}

#[test]
fn epoch_decides_first() {
    assert_eq!(order("1:0.9", "2.0"), 1);
    assert_eq!(order("0:2.0", "2.0"), 0);
    assert_eq!(order("2:1.0", "10:0.1"), -1);
}

#[test]
fn revision_decides_last() {
    assert_eq!(order("1.0-1", "1.0-2"), -1);
    assert_eq!(order("1.0-10", "1.0-9"), 1);
    assert_eq!(order("1.0", "1.0-0"), 0);
    assert_eq!(order("1.0", "1.0-1"), -1);
    assert_eq!(order("2.31-0", "2.31-0"), 0);
}

#[test]
fn the_last_hyphen_starts_the_revision() {
    assert_eq!(order("1.0-2-1", "1.0-10-1"), -1);
    assert_eq!(order("1.0-2-1", "1.0-2-2"), -1);
    assert_eq!(version("1.2-3-4").to_string(), "1.2-3-4");
}

#[test]
fn the_order_is_antisymmetric_and_transitive_on_samples() {
    let samples = [
        "0", "1", "1.0", "1.0~rc1", "1.0-1", "1.0-2", "1.0a", "1.0+", "1.1", "2.0", "10.0",
        "1:0.1", "1:1.0", "2.31-0", "1.00", "01.0", "1.0.", "1.0~", "1.0~~",
    ];
    for a in samples {
        assert_eq!(order(a, a), 0);
        for b in samples {
            assert_eq!(order(a, b), -order(b, a));
            for c in samples {
                if order(a, b) <= 0 && order(b, c) <= 0 {
                    assert!(order(a, c) <= 0);
                    if order(a, b) < 0 || order(b, c) < 0 {
                        assert!(order(a, c) < 0);
                    }
                }
            }
        }
    }
}

#[test]
fn parts_are_compared_without_a_version() {
    assert_eq!(compare_parts(&b"abc".to_vec(), &b"abc".to_vec()), 0);
    assert_eq!(compare_parts(&b"".to_vec(), &b"0".to_vec()), 0);
    assert_eq!(compare_parts(&b"".to_vec(), &b"a".to_vec()), -1);
    assert_eq!(compare_parts(&b"~".to_vec(), &b"".to_vec()), -1);
    assert_eq!(compare_parts(&b"a1b2".to_vec(), &b"a1b10".to_vec()), -1);
    assert_eq!(compare_parts(&b"a10b".to_vec(), &b"a9c".to_vec()), 1);
}

#[test]
fn relations_follow_the_order() {
    let low = version("1.0");
    let high = version("1.5");
    assert!(compare_with_op(&VersionRelation::StrictlyLess, &low, &high));
    assert!(compare_with_op(&VersionRelation::LessOrEqual, &low, &high));
    assert!(!compare_with_op(&VersionRelation::Equal, &low, &high));
    assert!(!compare_with_op(&VersionRelation::GreaterOrEqual, &low, &high));
    assert!(!compare_with_op(&VersionRelation::StrictlyGreater, &low, &high));
    assert!(compare_with_op(&VersionRelation::GreaterOrEqual, &high, &low));
    assert!(compare_with_op(&VersionRelation::StrictlyGreater, &high, &low));
    assert!(compare_with_op(&VersionRelation::Equal, &low, &version("1.00")));
    assert!(compare_with_op(&VersionRelation::LessOrEqual, &low, &low));
    assert!(compare_with_op(&VersionRelation::GreaterOrEqual, &low, &low));
    assert!(!compare_with_op(&VersionRelation::StrictlyLess, &low, &low));
    assert!(!compare_with_op(&VersionRelation::StrictlyGreater, &low, &low));
}

#[test]
fn texts_that_write_no_version_are_refused() {
    assert!(DebianVersionNum::parse("").is_none());
    assert!(DebianVersionNum::parse(":1.0").is_none());
    assert!(DebianVersionNum::parse("a:1.0").is_none());
    assert!(DebianVersionNum::parse("1:").is_none());
    assert!(DebianVersionNum::parse("1.0-").is_none());
    assert!(DebianVersionNum::parse("-1").is_none());
    assert!(DebianVersionNum::parse("1.0 ").is_none());
    assert!(DebianVersionNum::parse("1:2:3").is_none());
    assert!(DebianVersionNum::parse("1.0_1").is_none());
    assert!(DebianVersionNum::parse("1.\u{e9}").is_none());
}

#[test]
fn texts_that_write_a_version_are_read() {
    for text in ["1", "1.0", "2.31-0", "1:2.0+dfsg~rc1-3ubuntu1", "0.9.8k-1", "a", "1.0-a-b"] {
        let v = version(text);
        assert_eq!(v.to_string(), text);
        assert_eq!(v.clone().compare(&v), 0);
    }
}
