use pubgrub_crates_benchmark::hasher::hash_version;
use pubgrub_crates_benchmark::version::{SemverCompatibility, Version, VersionReq};
use pubgrub_crates_benchmark::version_set::{Condition, VersionSet};

fn full(major: u64, minor: u64, patch: u64, pre: &str, build: &str) -> Version {
    Version::from_parts(major, minor, patch, pre, build).unwrap()
}

fn req(text: &str) -> VersionReq {
    VersionReq::parse(text).unwrap()
}

#[test]
fn version_text() {
    assert_eq!(Version::new(1, 20, 3).text(), "1.20.3");
    assert_eq!(full(1, 0, 0, "alpha.1", "").text(), "1.0.0-alpha.1");
    assert_eq!(full(1, 0, 0, "", "b.7").text(), "1.0.0+b.7");
    assert_eq!(full(0, 0, 1, "rc", "x").text(), "0.0.1-rc+x");
}

#[test]
fn the_text_is_that_of_semver() {
    for text in ["0.0.0", "1.2.3", "1.2.3-alpha.1", "1.2.3+001", "10.20.30-rc.0+build.5"] {
        let v = semver::Version::parse(text).unwrap();
        let ours = full(v.major, v.minor, v.patch, v.pre.as_str(), v.build.as_str());
        assert_eq!(ours.text(), text);
    }
}

#[test]
fn parts_are_handed_back() {
    let v = full(4, 5, 6, "beta", "meta");
    assert_eq!((v.major(), v.minor(), v.patch()), (4, 5, 6));
    assert_eq!((v.pre(), v.build()), ("beta", "meta"));
}

#[test]
fn texts_that_are_no_identifiers_are_rejected() {
    assert!(Version::from_parts(1, 0, 0, "01", "").is_none());
    assert!(Version::from_parts(1, 0, 0, "", "01").is_some());
    assert!(Version::from_parts(1, 0, 0, "a..b", "").is_none());
    assert!(Version::from_parts(1, 0, 0, "a.", "").is_none());
    assert!(Version::from_parts(1, 0, 0, "a_b", "").is_none());
    assert!(Version::from_parts(1, 0, 0, "", "a b").is_none());
    assert!(Version::from_parts(1, 0, 0, "0", "00").is_some());
    assert!(Version::from_parts(1, 0, 0, "0a", "-").is_some());
    assert!(Version::from_parts(1, 0, 0, "\u{e9}", "").is_none());
}

#[test]
fn versions_are_ordered_as_semver_orders_them() {
    let ascending = [
        full(0, 0, 9, "", ""),
        full(0, 1, 0, "", ""),
        full(1, 0, 0, "9", ""),
        full(1, 0, 0, "10", ""),
        full(1, 0, 0, "alpha", ""),
        full(1, 0, 0, "alpha.1", ""),
        full(1, 0, 0, "", ""),
        full(1, 0, 0, "", "0"),
        full(1, 0, 0, "", "00"),
        full(1, 0, 0, "", "a"),
        full(1, 0, 1, "", ""),
        full(2, 0, 0, "", ""),
    ];
    for (i, a) in ascending.iter().enumerate() {
        for (j, b) in ascending.iter().enumerate() {
            assert_eq!(a.precedes(b), i < j);
            assert_eq!(a.same(b), i == j);
        }
    }
}

#[test]
fn a_class_is_named_by_the_leftmost_number() {
    assert_eq!(SemverCompatibility::of(&Version::new(3, 1, 4)), SemverCompatibility::Major(3));
    assert_eq!(SemverCompatibility::of(&Version::new(0, 1, 4)), SemverCompatibility::Minor(1));
    assert_eq!(SemverCompatibility::of(&Version::new(0, 0, 4)), SemverCompatibility::Patch(4));
    assert_eq!(SemverCompatibility::of(&Version::new(0, 0, 0)), SemverCompatibility::Patch(0));
    let pre = full(1, 0, 0, "alpha", "");
    assert_eq!(SemverCompatibility::of(&pre), SemverCompatibility::Major(1));
}

#[test]
fn a_canonical_version_belongs_to_its_class() {
    let classes = [
        (SemverCompatibility::Major(3), "3.0.0"),
        (SemverCompatibility::Minor(7), "0.7.0"),
        (SemverCompatibility::Patch(0), "0.0.0"),
        (SemverCompatibility::Patch(5), "0.0.5"),
    ];
    for (c, text) in classes {
        assert_eq!(c.canonical().text(), text);
        assert_eq!(SemverCompatibility::of(&c.canonical()), c);
    }
}

#[test]
fn requirements_are_read_and_written() {
    assert_eq!(req("1.2").text(), "^1.2");
    assert_eq!(req(" >= 1.2.3 , <2 ").text(), ">=1.2.3, <2");
    assert_eq!(req("1.x").text(), "1.*");
    assert_eq!(req("x").text(), "*");
    assert!(VersionReq::parse("").is_none());
    assert!(VersionReq::parse("one").is_none());
    assert!(VersionReq::parse("1.2.3.4").is_none());
    for text in ["*", "^1.2", "~0.3.1", "=1.0.0-alpha", ">=1, <3", "1.*", "1.2.*"] {
        let once = req(text);
        assert!(once.same(&req(once.text())));
    }
    assert!(!req("1").same(&req("2")));
}

#[test]
fn requirements_are_met_as_semver_says() {
    assert!(req("^1.2").matches(&Version::new(1, 9, 0)));
    assert!(!req("^1.2").matches(&Version::new(2, 0, 0)));
    assert!(!req("^1.2").matches(&full(1, 3, 0, "alpha", "")));
    assert!(req(">=1.3.0-alpha").matches(&full(1, 3, 0, "beta", "")));
    assert!(req("*").matches(&Version::new(0, 0, 0)));
    assert!(!req("~0.3.1").matches(&Version::new(0, 4, 0)));
}

#[test]
fn sets_hold_what_they_should() {
    let one = Version::new(1, 2, 3);
    let other = Version::new(1, 3, 0);
    let outside = Version::new(2, 0, 0);
    let single = VersionSet::singleton(one.clone());
    assert!(single.contains(&one) && !single.contains(&other));
    assert!(VersionSet::full().contains(&outside));
    let class = VersionSet::from_compatibility(SemverCompatibility::Major(1));
    assert!(class.contains(&one) && class.contains(&full(1, 0, 0, "a", "")));
    assert!(!class.contains(&outside));
    let wide = VersionSet::from_req(&req(">=1.3"));
    let both = wide.intersection(&class);
    assert!(!both.contains(&one) && both.contains(&other) && !both.contains(&outside));
    assert!(wide.contains(&outside));
    assert!(both.intersection(&VersionSet::full()).contains(&other));
    assert_eq!(both.conditions().len(), 2);
    assert!(matches!(both.conditions()[1], Condition::Compatible(SemverCompatibility::Major(1))));
    let copy = both.clone();
    assert!(copy.contains(&other) && !copy.contains(&one));
}

#[test]
fn different_versions_have_different_numbers() {
    let versions = [
        ("a", full(1, 0, 0, "", "")),
        ("a", full(1, 0, 1, "", "")),
        ("a", full(0, 1, 0, "", "")),
        ("a", full(1, 0, 0, "x", "")),
        ("a", full(1, 0, 0, "", "x")),
        ("ab", full(1, 0, 0, "", "")),
        ("", full(1, 0, 0, "", "")),
    ];
    for (i, (n, v)) in versions.iter().enumerate() {
        for (j, (m, w)) in versions.iter().enumerate() {
            assert_eq!(hash_version(n, v) == hash_version(m, w), i == j);
        }
    }
}

#[test]
fn versions_are_read_back_as_they_are_written() {
    let versions = [
        full(0, 0, 0, "", ""),
        full(1, 20, 300, "", ""),
        full(u64::MAX, 0, 1, "", ""),
        full(1, 0, 0, "rc.1-x", ""),
        full(1, 0, 0, "", "a-b.01"),
        full(1, 0, 0, "0", "0"),
        full(1, 0, 0, "a", "b"),
    ];
    for (i, v) in versions.iter().enumerate() {
        assert_eq!(Version::parse(&v.text()), Some(v.clone()));
        for (j, w) in versions.iter().enumerate() {
            assert_eq!(v.text() == w.text(), i == j);
        }
    }
}

#[test]
fn texts_that_are_no_versions_are_not_read() {
    let texts = [
        "", "1", "1.2", "1.2.3.4", "01.2.3", "1.2.3-", "1.2.3+", "1.2.3-01", "1.2.3-a..b", "v1.2.3",
        " 1.2.3", "1.2.3 ", "1.2.x", "18446744073709551616.0.0", "1.2.3-+b", "1.2.3+a+b",
    ];
    for text in texts {
        assert_eq!(Version::parse(text), None);
    }
}
