use rpkg::debversion::{DebianVersionNum, VersionRelation};
use rpkg::packages::{holds, Dependency, Packages, RelVersionedPackageNum};

fn version(text: &str) -> DebianVersionNum {
    DebianVersionNum::parse(text).expect("a version")
}

fn any(package_num: i32) -> RelVersionedPackageNum {
    RelVersionedPackageNum { package_num, rel_version: None }
}

fn with(package_num: i32, op: VersionRelation, required: &str) -> RelVersionedPackageNum {
    RelVersionedPackageNum { package_num, rel_version: Some((op, version(required))) }
}

fn sorted(mut v: Vec<i32>) -> Vec<i32> {
    v.sort();
    v
}

#[test]
fn package_numbers_are_dense_and_stable() {
    let mut db = Packages::new();
    assert!(!db.package_exists("a"));
    assert_eq!(db.find_package("a"), None);
    assert_eq!(db.get_package_num_inserting("a"), 0);
    assert_eq!(db.get_package_num_inserting("b"), 1);
    assert_eq!(db.get_package_num_inserting("a"), 0);
    assert_eq!(db.get_package_num_inserting("c"), 2);
    assert_eq!(db.package_count(), 3);
    assert!(db.package_exists("b"));
    assert_eq!(db.get_package_num("c"), 2);
    assert_eq!(db.get_package_name(1), "b");
    assert_eq!(db.find_package("d"), None);
}

#[test]
fn records_are_kept_by_package_number() {
    let mut db = Packages::new();
    let a = db.get_package_num_inserting("a");
    assert!(db.installed_version(a).is_none());
    assert!(db.set_installed_version(a, version("1.0")));
    assert!(db.set_available_version(a, version("2.0")));
    assert!(db.set_md5sum(a, "abc"));
    assert_eq!(db.installed_version(a).unwrap().to_string(), "1.0");
    assert_eq!(db.available_version(a).unwrap().to_string(), "2.0");
    assert_eq!(db.get_installed_debver("a").unwrap().to_string(), "1.0");
    assert_eq!(db.get_available_debver("a").unwrap().to_string(), "2.0");
    assert_eq!(db.checksum_of(a), Some("abc"));
    assert!(db.get_installed_debver("b").is_none());
    assert!(db.get_available_debver("b").is_none());
    assert!(db.dependencies_of(a).is_none());
}

#[test]
fn records_of_no_package_are_refused() {
    let mut db = Packages::new();
    let a = db.get_package_num_inserting("a");
    assert!(!db.set_installed_version(1, version("1.0")));
    assert!(!db.set_available_version(-1, version("1.0")));
    assert!(!db.set_md5sum(7, "abc"));
    assert!(!db.add_dependency(1, vec![any(a)]));
    assert!(!db.add_dependency(a, vec![]));
    assert!(!db.add_dependency(a, vec![any(a), any(5)]));
    assert!(!db.is_valid_dependency(&vec![]));
    assert!(!db.is_valid_dependency(&vec![any(-1)]));
    assert!(db.is_valid_dependency(&vec![any(a)]));
    assert!(db.installed_version(1).is_none());
    assert!(db.checksum_of(7).is_none());
    assert!(db.dependencies_of(a).is_none());
    assert!(db.add_dependency(a, vec![any(a)]));
    assert!(db.add_dependency(a, vec![any(a), any(a)]));
    assert_eq!(db.dependencies_of(a).unwrap().len(), 2);
    assert_eq!(db.dependencies_of(a).unwrap()[1].len(), 2);
}

#[test]
fn holds_finds_what_is_there() {
    assert!(holds(&vec![3, 1, 2], 2));
    assert!(!holds(&vec![3, 1, 2], 4));
    assert!(!holds(&vec![], 0));
}

#[test]
fn the_first_alternative_that_is_met_wins() {
    let mut db = Packages::new();
    let a = db.get_package_num_inserting("a");
    let b = db.get_package_num_inserting("b");
    let c = db.get_package_num_inserting("c");
    db.set_installed_version(b, version("2.0"));
    db.set_installed_version(c, version("3.0"));
    let dep: Dependency = vec![any(a), with(b, VersionRelation::GreaterOrEqual, "1.0"), any(c)];
    assert_eq!(db.dep_is_satisfied(&dep), Some(b));
    let dep: Dependency = vec![any(c), with(b, VersionRelation::GreaterOrEqual, "1.0")];
    assert_eq!(db.dep_is_satisfied(&dep), Some(c));
    let dep: Dependency = vec![with(b, VersionRelation::StrictlyLess, "2.0"), any(c), any(b)];
    assert_eq!(db.dep_is_satisfied(&dep), Some(c));
}

#[test]
fn an_alternative_without_version_is_met_by_any_installed_version() {
    let mut db = Packages::new();
    let a = db.get_package_num_inserting("a");
    let dep: Dependency = vec![any(a)];
    assert_eq!(db.dep_is_satisfied(&dep), None);
    assert!(!db.alternative_is_satisfied(&dep[0]));
    db.set_installed_version(a, version("0.1"));
    assert_eq!(db.dep_is_satisfied(&dep), Some(a));
    assert!(db.alternative_is_satisfied(&dep[0]));
    assert!(!db.alternative_has_wrong_version(&dep[0]));
}

#[test]
fn each_relation_is_held_against_the_installed_version() {
    let mut db = Packages::new();
    let a = db.get_package_num_inserting("a");
    db.set_installed_version(a, version("2.0"));
    let cases = [
        (VersionRelation::StrictlyLess, "2.0", false),
        (VersionRelation::StrictlyLess, "10.0", true),
        (VersionRelation::LessOrEqual, "2.0", true),
        (VersionRelation::LessOrEqual, "1.9", false),
        (VersionRelation::Equal, "2.00", true),
        (VersionRelation::Equal, "2.1", false),
        (VersionRelation::GreaterOrEqual, "2.0", true),
        (VersionRelation::GreaterOrEqual, "10.0", false),
        (VersionRelation::StrictlyGreater, "2.0", false),
        (VersionRelation::StrictlyGreater, "1.10", true),
    ];
    for (op, required, met) in cases {
        let dep: Dependency = vec![with(a, op, required)];
        assert_eq!(db.dep_is_satisfied(&dep), if met { Some(a) } else { None });
        assert_eq!(db.alternative_has_wrong_version(&dep[0]), !met);
    }
}

#[test]
fn an_empty_dependency_is_not_met() {
    let db = Packages::new();
    assert_eq!(db.dep_is_satisfied(&vec![]), None);
    assert_eq!(db.dep_satisfied_by_wrong_version(&vec![]), Vec::<i32>::new());
    assert_eq!(db.select_dependency(&vec![]), None);
}

#[test]
fn wrong_versions_are_told_from_what_is_not_installed() {
    let mut db = Packages::new();
    let a = db.get_package_num_inserting("a");
    let b = db.get_package_num_inserting("b");
    let c = db.get_package_num_inserting("c");
    let d = db.get_package_num_inserting("d");
    db.set_installed_version(a, version("1.0"));
    db.set_installed_version(c, version("1.0"));
    let dep: Dependency = vec![
        with(a, VersionRelation::GreaterOrEqual, "2.0"),
        with(b, VersionRelation::GreaterOrEqual, "2.0"),
        with(c, VersionRelation::StrictlyLess, "1.0"),
        any(d),
    ];
    assert_eq!(db.dep_is_satisfied(&dep), None);
    assert_eq!(db.dep_satisfied_by_wrong_version(&dep), vec![a, c]);
}

#[test]
fn deps_available_reports_each_dependency() {
    let mut db = Packages::new();
    let root = db.get_package_num_inserting("root");
    let a = db.get_package_num_inserting("a");
    let b = db.get_package_num_inserting("b");
    db.set_installed_version(b, version("1.0"));
    db.add_dependency(root, vec![any(a), any(b)]);
    db.add_dependency(root, vec![any(a)]);
    db.add_dependency(root, vec![with(b, VersionRelation::Equal, "1.0")]);
    assert_eq!(db.deps_available("root"), Some(vec![Some(b), None, Some(b)]));
    assert_eq!(db.deps_available("a"), Some(vec![]));
    assert_eq!(db.deps_available("nobody"), None);
}

#[test]
fn closure_of_a_package_without_dependencies_is_empty() {
    let mut db = Packages::new();
    db.get_package_num_inserting("a");
    assert_eq!(db.transitive_dep_solution("a"), Vec::<i32>::new());
}

#[test]
fn closure_of_an_unknown_package_is_empty() {
    let mut db = Packages::new();
    db.get_package_num_inserting("a");
    assert_eq!(db.transitive_dep_solution("b"), Vec::<i32>::new());
    assert_eq!(db.compute_how_to_install("b"), Vec::<i32>::new());
}

#[test]
fn closure_takes_first_alternatives_whatever_is_installed() {
    let mut db = Packages::new();
    let root = db.get_package_num_inserting("root");
    let a = db.get_package_num_inserting("a");
    let b = db.get_package_num_inserting("b");
    let c = db.get_package_num_inserting("c");
    let d = db.get_package_num_inserting("d");
    let e = db.get_package_num_inserting("e");
    db.set_installed_version(b, version("1.0"));
    db.add_dependency(root, vec![any(a), any(b)]);
    db.add_dependency(root, vec![any(c)]);
    db.add_dependency(a, vec![any(d), any(e)]);
    db.add_dependency(c, vec![any(d)]);
    db.add_dependency(b, vec![any(e)]);
    assert_eq!(sorted(db.transitive_dep_solution("root")), vec![a, c, d]);
    assert_eq!(db.transitive_dep_solution("root"), vec![c, d, a]);
    assert_eq!(db.transitive_dep_solution("b"), vec![e]);
}

#[test]
fn closure_of_a_cycle_ends_and_holds_each_package_once() {
    let mut db = Packages::new();
    let a = db.get_package_num_inserting("a");
    let b = db.get_package_num_inserting("b");
    db.add_dependency(a, vec![any(b)]);
    db.add_dependency(b, vec![any(a)]);
    assert_eq!(db.transitive_dep_solution("a"), vec![b, a]);
    assert_eq!(db.transitive_dep_solution("b"), vec![a, b]);
}

#[test]
fn closure_holds_no_package_twice() {
    let mut db = Packages::new();
    let root = db.get_package_num_inserting("root");
    let a = db.get_package_num_inserting("a");
    let b = db.get_package_num_inserting("b");
    db.add_dependency(root, vec![any(a)]);
    db.add_dependency(root, vec![any(a)]);
    db.add_dependency(root, vec![any(b)]);
    db.add_dependency(b, vec![any(a)]);
    db.add_dependency(a, vec![any(a)]);
    assert_eq!(sorted(db.transitive_dep_solution("root")), vec![a, b]);
}

#[test]
fn selection_compares_versions_by_debian_rules() {
    let mut db = Packages::new();
    let x = db.get_package_num_inserting("x");
    let y = db.get_package_num_inserting("y");
    db.set_available_version(x, version("2.0"));
    db.set_available_version(y, version("10.0"));
    assert_eq!(db.select_dependency(&vec![any(x), any(y)]), Some(y));
    assert_eq!(db.select_dependency(&vec![any(y), any(x)]), Some(y));
}

#[test]
fn selection_takes_the_first_of_equal_versions() {
    let mut db = Packages::new();
    let x = db.get_package_num_inserting("x");
    let y = db.get_package_num_inserting("y");
    let z = db.get_package_num_inserting("z");
    db.set_available_version(x, version("1.0"));
    db.set_available_version(y, version("1.00"));
    db.set_available_version(z, version("0.9"));
    assert_eq!(db.select_dependency(&vec![any(z), any(x), any(y)]), Some(x));
    assert_eq!(db.select_dependency(&vec![any(y), any(z), any(x)]), Some(y));
}

#[test]
fn selection_needs_an_available_version() {
    let mut db = Packages::new();
    let x = db.get_package_num_inserting("x");
    let y = db.get_package_num_inserting("y");
    assert_eq!(db.select_dependency(&vec![any(x), any(y)]), None);
    db.set_installed_version(x, version("1.0"));
    let dep: Dependency = vec![with(x, VersionRelation::GreaterOrEqual, "2.0"), any(y)];
    assert_eq!(db.select_dependency(&dep), None);
    db.set_available_version(x, version("3.0"));
    assert_eq!(db.select_dependency(&dep), Some(x));
    db.set_available_version(y, version("3.1"));
    assert_eq!(db.select_dependency(&dep), Some(y));
}

#[test]
fn plan_for_libc6_installs_libfoo() {
    let mut db = Packages::new();
    let libc6 = db.get_package_num_inserting("libc6");
    let libfoo = db.get_package_num_inserting("libfoo");
    db.set_installed_version(libc6, version("2.31-0"));
    db.set_available_version(libfoo, version("1.5"));
    let dep: Dependency = vec![with(libfoo, VersionRelation::GreaterOrEqual, "1.0")];
    assert_eq!(db.dep_is_satisfied(&dep), None);
    db.add_dependency(libc6, dep);
    assert_eq!(db.compute_how_to_install("libc6"), vec![libfoo]);
}

#[test]
fn plan_is_empty_where_every_dependency_is_met() {
    let mut db = Packages::new();
    let root = db.get_package_num_inserting("root");
    let a = db.get_package_num_inserting("a");
    let b = db.get_package_num_inserting("b");
    db.set_installed_version(a, version("1.0"));
    db.set_installed_version(b, version("2.0"));
    db.set_available_version(a, version("1.1"));
    db.add_dependency(root, vec![any(a)]);
    db.add_dependency(root, vec![with(b, VersionRelation::GreaterOrEqual, "2.0"), any(a)]);
    db.add_dependency(a, vec![with(b, VersionRelation::GreaterOrEqual, "3.0")]);
    assert_eq!(db.compute_how_to_install("root"), Vec::<i32>::new());
}

#[test]
fn plan_never_holds_the_root() {
    let mut db = Packages::new();
    let a = db.get_package_num_inserting("a");
    let b = db.get_package_num_inserting("b");
    db.set_available_version(a, version("1.0"));
    db.set_available_version(b, version("1.0"));
    db.add_dependency(a, vec![any(b)]);
    db.add_dependency(b, vec![any(a)]);
    assert_eq!(db.compute_how_to_install("a"), vec![b]);
    assert_eq!(db.compute_how_to_install("b"), vec![a]);
    db.add_dependency(a, vec![any(a)]);
    assert_eq!(db.compute_how_to_install("a"), vec![b]);
}

#[test]
fn plan_follows_the_picks_breadth_first() {
    let mut db = Packages::new();
    let root = db.get_package_num_inserting("root");
    let a = db.get_package_num_inserting("a");
    let b = db.get_package_num_inserting("b");
    let c = db.get_package_num_inserting("c");
    let d = db.get_package_num_inserting("d");
    let e = db.get_package_num_inserting("e");
    db.set_available_version(a, version("1.0"));
    db.set_available_version(b, version("2.0"));
    db.set_available_version(c, version("1.0"));
    db.set_available_version(d, version("1.0"));
    db.set_installed_version(e, version("1.0"));
    db.add_dependency(root, vec![any(a), any(b)]);
    db.add_dependency(root, vec![any(c)]);
    db.add_dependency(root, vec![any(e), any(a)]);
    db.add_dependency(b, vec![any(d)]);
    db.add_dependency(c, vec![any(d), any(e)]);
    db.add_dependency(a, vec![any(c)]);
    db.add_dependency(d, vec![any(root)]);
    assert_eq!(db.compute_how_to_install("root"), vec![b, c, d]);
}

#[test]
fn plan_passes_over_a_dependency_without_available_version() {
    let mut db = Packages::new();
    let root = db.get_package_num_inserting("root");
    let a = db.get_package_num_inserting("a");
    let b = db.get_package_num_inserting("b");
    db.set_available_version(b, version("1.0"));
    db.add_dependency(root, vec![any(a)]);
    db.add_dependency(root, vec![any(b)]);
    assert_eq!(db.compute_how_to_install("root"), vec![b]);
}

#[test]
fn plan_takes_a_wrong_version_for_not_met() {
    let mut db = Packages::new();
    let root = db.get_package_num_inserting("root");
    let a = db.get_package_num_inserting("a");
    db.set_installed_version(a, version("1.0"));
    db.set_available_version(a, version("2.0"));
    db.add_dependency(root, vec![with(a, VersionRelation::GreaterOrEqual, "2.0")]);
    assert_eq!(db.compute_how_to_install("root"), vec![a]);
}
