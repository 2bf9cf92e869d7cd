use pubgrub_crates_benchmark::choice::{canonical_classes, choose_from, count_in, drop_repeats, Bound};
use pubgrub_crates_benchmark::constraints::{deps_insert, Dependencies, DependencyConstraints};
use pubgrub_crates_benchmark::error::SomeError;
use pubgrub_crates_benchmark::hasher::hash_version;
use pubgrub_crates_benchmark::index_data::{
    get_feature, Crates, Dependency, DependencyKind, VersionData,
};
use pubgrub_crates_benchmark::names::{new_bucket, new_links, new_wide, Names};
use pubgrub_crates_benchmark::provider::Index;
use pubgrub_crates_benchmark::version::{SemverCompatibility, Version, VersionReq};
use pubgrub_crates_benchmark::version_set::VersionSet;

fn v(major: u64, minor: u64, patch: u64) -> Version {
    Version::new(major, minor, patch)
}

fn s(text: &str) -> String {
    text.to_string()
}

fn major(n: u64) -> SemverCompatibility {
    SemverCompatibility::Major(n)
}

fn req(text: &str) -> VersionReq {
    VersionReq::parse(text).unwrap()
}

fn dep(name: &str, text: &str, only: Option<SemverCompatibility>) -> Dependency {
    Dependency {
        name: s(name),
        package_name: s(name),
        req: req(text),
        only_compatibility: only,
        features: vec![],
        optional: false,
        default_features: false,
        kind: DependencyKind::Normal,
    }
}

fn data(name: &str, vers: Version, deps: Vec<Dependency>) -> VersionData {
    VersionData { name: s(name), vers, deps, features: vec![], links: None, yanked: false }
}

fn bucket(name: &str, c: SemverCompatibility) -> Names {
    new_bucket(s(name), c, false)
}

fn feature(name: &str, c: SemverCompatibility, feat: &str) -> Names {
    Names::BucketFeatures(s(name), c, s(feat))
}

/// The demands of an answer, and for each which of a few versions it holds.
fn shown(deps: &DependencyConstraints, versions: &[Version]) -> Vec<(Names, Vec<String>)> {
    deps.entries()
        .iter()
        .map(|(n, set)| {
            let held = versions.iter().filter(|v| set.contains(v)).map(|v| v.text()).collect();
            (n.clone(), held)
        })
        .collect()
}

fn ask(crates: &Crates, n: &Names, version: &Version, versions: &[Version]) -> Vec<(Names, Vec<String>)> {
    let mut index = Index::new(crates);
    assert!(index.can_answer(n, version));
    match index.get_dependencies(n, version) {
        Ok(Dependencies::Available(deps)) => shown(&deps, versions),
        other => panic!("not available: {:?}", other),
    }
}

fn refused(crates: &Crates, n: &Names, version: &Version) -> String {
    let mut index = Index::new(crates);
    assert!(index.can_answer(n, version));
    match index.get_dependencies(n, version) {
        Ok(Dependencies::Unavailable(why)) => why,
        other => panic!("not refused: {:?}", other),
    }
}

fn texts(versions: &[&str]) -> Vec<String> {
    versions.iter().map(|t| s(t)).collect()
}

#[test]
fn packages_are_made_and_told_apart() {
    let b = bucket("a", major(1));
    assert_eq!(b, Names::Bucket(s("a"), major(1), false));
    let root = new_bucket(s("a"), major(1), true);
    assert!(!b.same(&root) && b.same(&b.clone()));
    assert!(b.is_real() && root.is_real() && root.is_root() && !b.is_root());
    let f = b.with_features(s("std"));
    assert_eq!(f, feature("a", major(1), "std"));
    assert_eq!(root.with_features(s("std")), f);
    assert_eq!(f.with_features(s("alloc")), feature("a", major(1), "alloc"));
    assert!(!f.is_real() && !f.is_root());
    let w = new_wide(s("a"), req(">=1"), s("p"), major(2));
    assert_eq!(w, Names::Wide(s("a"), req(">=1"), s("p"), major(2)));
    let wf = w.with_features(s("std"));
    assert_eq!(wf, Names::WideFeatures(s("a"), req(">=1"), s("p"), major(2), s("std")));
    assert_eq!(
        wf.with_features(s("x")),
        Names::WideFeatures(s("a"), req(">=1"), s("p"), major(2), s("x"))
    );
    assert!(!w.is_real() && !wf.is_real() && !new_links(s("z")).is_real());
    for n in [&b, &root, &f, &w, &wf] {
        assert_eq!(n.crate_(), "a");
    }
    assert_eq!(new_links(s("z")), Names::Links(s("z")));
}

#[test]
fn demands_on_one_package_are_combined() {
    let known = [v(1, 0, 0), v(1, 1, 0), v(1, 2, 0)];
    let mut deps = DependencyConstraints::new();
    assert_eq!(deps.len(), 0);
    deps_insert(&mut deps, bucket("a", major(1)), VersionSet::from_req(&req(">=1.1")));
    deps_insert(&mut deps, bucket("b", major(1)), VersionSet::full());
    deps_insert(&mut deps, bucket("a", major(1)), VersionSet::from_req(&req("<1.2")));
    let want = vec![
        (bucket("a", major(1)), texts(&["1.1.0"])),
        (bucket("b", major(1)), texts(&["1.0.0", "1.1.0", "1.2.0"])),
    ];
    assert_eq!(deps.len(), 2);
    assert_eq!(shown(&deps, &known), want);
    let mut other = DependencyConstraints::new();
    deps_insert(&mut other, bucket("a", major(1)), VersionSet::from_req(&req("<1.2")));
    deps_insert(&mut other, bucket("a", major(1)), VersionSet::from_req(&req(">=1.1")));
    deps_insert(&mut other, bucket("b", major(1)), VersionSet::full());
    assert_eq!(shown(&other, &known), want);
}

#[test]
fn versions_are_kept_in_order_and_replaced() {
    let mut crates = Crates::new();
    for version in [v(1, 2, 0), v(0, 9, 0), v(1, 10, 0), v(1, 2, 0)] {
        crates.insert(data("a", version, vec![]));
    }
    crates.insert(data("b", v(3, 0, 0), vec![]));
    let index = Index::new(&crates);
    let listed: Vec<String> = index.get_versions(&s("a")).iter().map(|v| v.text()).collect();
    assert_eq!(listed, texts(&["1.10.0", "1.2.0", "0.9.0"]));
    assert!(index.get_versions(&s("c")).is_empty());
    assert!(index.get_crate(&s("c")).is_none());
    assert_eq!(index.get_crate(&s("a")).unwrap().len(), 3);
    assert!(index.get_version(&s("a"), &v(0, 9, 0)).is_some());
    assert!(index.get_version(&s("b"), &v(0, 9, 0)).is_none());
    let mut newer = data("a", v(1, 2, 0), vec![]);
    newer.yanked = true;
    crates.insert(newer);
    assert!(crates.get_version(&s("a"), &v(1, 2, 0)).unwrap().yanked);
    assert!(!crates.get_version(&s("a"), &v(0, 9, 0)).unwrap().yanked);
    assert_eq!(crates.get(&s("a")).unwrap().len(), 3);
}

#[test]
fn features_are_looked_up_by_name() {
    let features = vec![(s("std"), vec![s("alloc")]), (s("alloc"), vec![])];
    assert_eq!(get_feature(&features, &s("std")), Some(&vec![s("alloc")]));
    assert_eq!(get_feature(&features, &s("alloc")), Some(&vec![]));
    assert_eq!(get_feature(&features, &s("core")), None);
}

fn several() -> Crates {
    let mut crates = Crates::new();
    for version in [v(0, 1, 0), v(0, 1, 5), v(0, 2, 0), v(1, 0, 0), v(1, 4, 0), v(2, 0, 0), v(2, 3, 1)] {
        crates.insert(data("a", version, vec![]));
    }
    crates
}

#[test]
fn the_highest_version_in_range_is_chosen() {
    let crates = several();
    let index = Index::new(&crates);
    let n = bucket("a", major(1));
    let set = VersionSet::from_req(&req("^1"));
    assert_eq!(index.choose_version(&n, |v| set.contains(v), &None), Ok(Some(v(1, 4, 0))));
    assert_eq!(index.choose_version(&n, |_| true, &None), Ok(Some(v(2, 3, 1))));
    assert_eq!(index.choose_version(&n, |_| false, &None), Ok(None));
    let f = feature("a", major(1), "std");
    assert_eq!(index.choose_version(&f, |v| set.contains(v), &None), Ok(Some(v(1, 4, 0))));
    assert_eq!(index.choose_version(&bucket("z", major(1)), |_| true, &None), Ok(None));
}

#[test]
fn the_highest_class_that_meets_the_requirement_is_chosen() {
    let crates = several();
    let index = Index::new(&crates);
    let w = new_wide(s("a"), req(">=0.1.5, <2.1"), s("p"), major(1));
    assert_eq!(index.choose_version(&w, |_| true, &None), Ok(Some(v(2, 0, 0))));
    assert_eq!(index.choose_version(&w, |x| x.major() < 2, &None), Ok(Some(v(1, 0, 0))));
    assert_eq!(index.choose_version(&w, |x| x.major() == 0, &None), Ok(Some(v(0, 2, 0))));
    assert_eq!(index.choose_version(&w, |x| x.minor() == 1, &None), Ok(Some(v(0, 1, 0))));
    assert_eq!(index.choose_version(&w, |x| x.minor() == 4, &None), Ok(None));
    let wf = w.with_features(s("std"));
    assert_eq!(index.choose_version(&wf, |x| x.major() < 2, &None), Ok(Some(v(1, 0, 0))));
}

#[test]
fn a_library_gets_the_upper_end_of_its_range() {
    let crates = several();
    let index = Index::new(&crates);
    let n = new_links(s("z"));
    let range = Some((Bound::Unbounded, Bound::Included(v(7, 0, 0))));
    assert_eq!(index.choose_version(&n, |_| false, &range), Ok(Some(v(7, 0, 0))));
    let range = Some((Bound::Included(v(1, 0, 0)), Bound::Excluded(v(7, 0, 0))));
    assert_eq!(index.choose_version(&n, |_| true, &range), Err(SomeError));
    let range = Some((Bound::Unbounded, Bound::Unbounded));
    assert_eq!(index.choose_version(&n, |_| true, &range), Err(SomeError));
    assert_eq!(index.choose_version(&n, |_| true, &None), Err(SomeError));
}

#[test]
fn packages_with_few_candidates_are_urgent() {
    let crates = several();
    let index = Index::new(&crates);
    let set = VersionSet::from_req(&req("^1"));
    assert_eq!(index.prioritize(&bucket("a", major(1)), |v| set.contains(v)), 2);
    assert_eq!(index.prioritize(&bucket("a", major(1)), |_| true), 7);
    assert_eq!(index.prioritize(&feature("a", major(1), "x"), |_| true), 7);
    assert_eq!(index.prioritize(&bucket("z", major(1)), |_| true), 0);
    assert_eq!(index.prioritize(&new_links(s("z")), |_| false), usize::MAX);
}

#[test]
fn a_class_counts_once() {
    let crates = several();
    let index = Index::new(&crates);
    let w = new_wide(s("a"), req("*"), s("p"), major(1));
    assert_eq!(index.prioritize(&w, |_| true), 4);
    assert_eq!(index.prioritize(&w, |x| x.major() == 0), 2);
    assert_eq!(index.prioritize(&w.with_features(s("x")), |_| true), 4);
    let narrow = new_wide(s("a"), req(">=1.4, <2.1"), s("p"), major(1));
    assert_eq!(index.prioritize(&narrow, |_| true), 2);
}

#[test]
fn a_version_is_chosen_where_something_is_counted() {
    let crates = several();
    let index = Index::new(&crates);
    let packages = [
        bucket("a", major(1)),
        bucket("z", major(1)),
        feature("a", major(1), "x"),
        new_wide(s("a"), req("*"), s("p"), major(1)),
        new_wide(s("a"), req(">=3"), s("p"), major(1)),
    ];
    for n in &packages {
        for low in 0..4 {
            let counted = index.prioritize(n, |x| x.major() >= low) > 0;
            let chosen = index.choose_version(n, |x| x.major() >= low, &None).unwrap().is_some();
            assert_eq!(counted, chosen);
        }
    }
}

#[test]
fn lists_of_candidates() {
    let classes = vec![major(2), major(2), major(1), major(2)];
    assert_eq!(drop_repeats(&classes), vec![major(2), major(1), major(2)]);
    assert_eq!(drop_repeats(&vec![]), vec![]);
    let listed = canonical_classes(&vec![major(2), SemverCompatibility::Minor(3)]);
    assert_eq!(listed, vec![v(2, 0, 0), v(0, 3, 0)]);
    assert_eq!(choose_from(&listed, |x| x.major() == 0), Some(v(0, 3, 0)));
    assert_eq!(choose_from(&listed, |_| true), Some(v(2, 0, 0)));
    assert_eq!(choose_from(&listed, |_| false), None);
    assert_eq!(count_in(&listed, |x| x.major() == 0), 1);
    assert_eq!(count_in(&listed, |_| true), 2);
}

/// A crate with one dependency of each sort.
fn with_every_sort() -> Crates {
    let mut normal = dep("n", "^1.1", Some(major(1)));
    normal.default_features = true;
    normal.features = vec![s("std"), s("")];
    let mut optional = dep("o", "^2", Some(major(2)));
    optional.optional = true;
    let mut dev = dep("d", "^3", Some(major(3)));
    dev.kind = DependencyKind::Dev;
    let mut build = dep("b", ">=1", None);
    build.kind = DependencyKind::Build;
    build.features = vec![s("f")];
    let mut renamed = dep("r", "^1", Some(major(1)));
    renamed.package_name = s("real");
    let mut of_a = data("a", v(1, 2, 3), vec![normal, optional, dev, build, renamed]);
    of_a.links = Some(s("z"));
    of_a.features = vec![
        (s("on"), vec![s("dep:o"), s("n/extra"), s("o?/more"), s("b/wide"), s("d/none"), s("q/none")]),
        (s("bad"), vec![s("n/x/y")]),
        (s("odd"), vec![s("dep:dep:r"), s("dep:r/inner")]),
        (s("o"), vec![s("n/never")]),
        (s("empty"), vec![]),
    ];
    let mut crates = Crates::new();
    crates.insert(of_a);
    crates
}

#[test]
fn a_crate_demands_what_it_depends_on() {
    let crates = with_every_sort();
    let number = hash_version("a", &v(1, 2, 3));
    let known = [v(1, 0, 0), v(1, 1, 0), v(2, 0, 0), v(3, 0, 0), v(number, 0, 0)];
    let all = texts(&["1.0.0", "1.1.0", "2.0.0", "3.0.0"]);
    let mut all_and = all.clone();
    all_and.push(v(number, 0, 0).text());
    let wide = new_wide(s("b"), req(">=1"), s("a"), major(1));
    let got = ask(&crates, &bucket("a", major(1)), &v(1, 2, 3), &known);
    let links = (new_links(s("z")), vec![v(number, 0, 0).text()]);
    let want = vec![
        links.clone(),
        (bucket("n", major(1)), texts(&["1.1.0"])),
        (feature("n", major(1), "default"), texts(&["1.1.0"])),
        (feature("n", major(1), "std"), texts(&["1.1.0"])),
        (feature("n", major(1), ""), texts(&["1.1.0"])),
        (wide.clone(), all_and.clone()),
        (wide.with_features(s("f")), all_and.clone()),
        (bucket("real", major(1)), texts(&["1.0.0", "1.1.0"])),
    ];
    assert_eq!(got, want);
    let got = ask(&crates, &new_bucket(s("a"), major(1), true), &v(1, 2, 3), &known);
    let mut want_root = want.clone();
    want_root.insert(5, (bucket("o", major(2)), texts(&["2.0.0"])));
    want_root.insert(6, (bucket("d", major(3)), texts(&["3.0.0"])));
    assert_eq!(got, want_root);
}

#[test]
fn a_feature_turns_on_the_optional_dependency_of_its_name() {
    let crates = with_every_sort();
    let known = [v(1, 2, 3), v(2, 0, 0)];
    let got = ask(&crates, &feature("a", major(1), "o"), &v(1, 2, 3), &known);
    let want = vec![
        (bucket("a", major(1)), texts(&["1.2.3"])),
        (bucket("o", major(2)), texts(&["2.0.0"])),
    ];
    assert_eq!(got, want);
}

#[test]
fn a_feature_demands_what_it_lists() {
    let crates = with_every_sort();
    let known = [v(1, 2, 3), v(2, 0, 0)];
    let got = ask(&crates, &feature("a", major(1), "on"), &v(1, 2, 3), &known);
    let wide = new_wide(s("b"), req(">=1"), s("a"), major(1));
    let want = vec![
        (bucket("a", major(1)), texts(&["1.2.3"])),
        (feature("a", major(1), "o"), texts(&["1.2.3"])),
        (feature("n", major(1), "extra"), texts(&["1.2.3"])),
        (feature("o", major(2), "more"), texts(&["2.0.0"])),
        (wide.with_features(s("wide")), texts(&["1.2.3", "2.0.0"])),
    ];
    assert_eq!(got, want);
    let got = ask(&crates, &feature("a", major(1), "odd"), &v(1, 2, 3), &known);
    let want = vec![
        (bucket("a", major(1)), texts(&["1.2.3"])),
        (feature("a", major(1), "r"), texts(&["1.2.3"])),
        (feature("real", major(1), "inner"), texts(&["1.2.3"])),
    ];
    assert_eq!(got, want);
    let got = ask(&crates, &feature("a", major(1), "empty"), &v(1, 2, 3), &known);
    assert_eq!(got, vec![(bucket("a", major(1)), texts(&["1.2.3"]))]);
}

#[test]
fn default_features_are_always_there() {
    let crates = with_every_sort();
    let got = ask(&crates, &feature("a", major(1), "default"), &v(1, 2, 3), &[v(1, 2, 3)]);
    assert_eq!(got, vec![(bucket("a", major(1)), texts(&["1.2.3"]))]);
    assert_eq!(refused(&crates, &feature("a", major(1), "none"), &v(1, 2, 3)), "no matching feat");
    assert_eq!(refused(&crates, &feature("a", major(1), "r"), &v(1, 2, 3)), "no matching feat");
}

#[test]
fn what_has_no_answer_is_told() {
    let crates = with_every_sort();
    let index = Index::new(&crates);
    assert!(!index.can_answer(&feature("a", major(1), "bad"), &v(1, 2, 3)));
    assert!(!index.can_answer(&feature("a", major(1), "on"), &v(1, 2, 4)));
    assert!(!index.can_answer(&bucket("a", major(1)), &v(1, 2, 4)));
    assert!(!index.can_answer(&bucket("c", major(1)), &v(1, 2, 3)));
    assert!(index.can_answer(&new_links(s("z")), &v(9, 9, 9)));
    assert!(index.can_answer(&new_wide(s("c"), req("*"), s("a"), major(1)), &v(9, 9, 9)));
}

#[test]
fn yanked_versions_cannot_be_used() {
    let mut crates = Crates::new();
    let mut d = data("a", v(1, 0, 0), vec![]);
    d.yanked = true;
    d.features = vec![(s("bad"), vec![s("n/x/y")])];
    crates.insert(d);
    assert_eq!(refused(&crates, &bucket("a", major(1)), &v(1, 0, 0)), "yanked");
    assert_eq!(refused(&crates, &feature("a", major(1), "default"), &v(1, 0, 0)), "yanked");
    assert_eq!(refused(&crates, &feature("a", major(1), "bad"), &v(1, 0, 0)), "yanked");
}

#[test]
fn a_crate_cannot_depend_on_its_own_class() {
    let mut crates = Crates::new();
    crates.insert(data("a", v(1, 0, 0), vec![dep("a", "^1", Some(major(1)))]));
    let mut dev = dep("b", "^1", Some(major(1)));
    dev.kind = DependencyKind::Dev;
    crates.insert(data("b", v(1, 0, 0), vec![dev]));
    crates.insert(data("c", v(1, 0, 0), vec![dep("c", "^0.5", Some(SemverCompatibility::Minor(5)))]));
    assert_eq!(refused(&crates, &bucket("a", major(1)), &v(1, 0, 0)), "self dep");
    assert!(ask(&crates, &bucket("b", major(1)), &v(1, 0, 0), &[]).is_empty());
    let root = new_bucket(s("a"), major(1), true);
    assert_eq!(ask(&crates, &root, &v(1, 0, 0), &[]), vec![(bucket("a", major(1)), vec![])]);
    assert_eq!(ask(&crates, &bucket("c", major(1)), &v(1, 0, 0), &[]).len(), 1);
}

#[test]
fn a_requirement_leads_to_the_class_of_its_version() {
    let crates = Crates::new();
    let known = [v(1, 0, 0), v(1, 5, 0), v(1, 9, 0), v(2, 0, 0)];
    let w = new_wide(s("a"), req(">=1.5, <3, <1.8"), s("p"), major(4));
    let got = ask(&crates, &w, &v(1, 0, 0), &known);
    assert_eq!(got, vec![(bucket("a", major(1)), texts(&["1.5.0"]))]);
    let got = ask(&crates, &w.with_features(s("f")), &v(1, 0, 0), &known);
    let want = vec![
        (w.clone(), texts(&["1.0.0"])),
        (feature("a", major(1), "f"), texts(&["1.5.0"])),
    ];
    assert_eq!(got, want);
    assert!(ask(&crates, &new_links(s("z")), &v(5, 0, 0), &known).is_empty());
}

#[test]
fn different_crates_demand_different_versions_of_a_library() {
    let mut crates = Crates::new();
    for name in ["a", "b"] {
        let mut d = data(name, v(1, 0, 0), vec![]);
        d.links = Some(s("z"));
        crates.insert(d);
    }
    let numbers = [
        v(hash_version("a", &v(1, 0, 0)), 0, 0),
        v(hash_version("b", &v(1, 0, 0)), 0, 0),
    ];
    let a = ask(&crates, &bucket("a", major(1)), &v(1, 0, 0), &numbers);
    let b = ask(&crates, &bucket("b", major(1)), &v(1, 0, 0), &numbers);
    assert_eq!(a, vec![(new_links(s("z")), vec![numbers[0].text()])]);
    assert_eq!(b, vec![(new_links(s("z")), vec![numbers[1].text()])]);
}

#[test]
fn questions_are_recorded_once_until_the_reset() {
    let crates = several();
    let mut index = Index::new(&crates);
    assert!(index.recorded_list().is_empty());
    let n = bucket("a", major(1));
    for version in [v(1, 0, 0), v(1, 4, 0), v(1, 0, 0)] {
        assert!(index.get_dependencies(&n, &version).is_ok());
    }
    let copy = index.clone();
    let want = vec![(n.clone(), v(1, 0, 0)), (n.clone(), v(1, 4, 0))];
    assert_eq!(index.recorded_list(), &want);
    index.reset();
    assert!(index.recorded_list().is_empty());
    assert_eq!(copy.recorded_list(), &want);
}

#[test]
fn the_clock_counts_every_64th_time() {
    let crates = Crates::new();
    let mut index = Index::new(&crates);
    for i in 0..200u64 {
        assert_eq!(index.call_count(), i);
        let want = if i % 64 == 0 { Err(SomeError) } else { Ok(()) };
        assert_eq!(index.should_cancel(true), want);
    }
    let mut index = Index::new(&crates);
    for _ in 0..200 {
        assert_eq!(index.should_cancel(false), Ok(()));
    }
    index.reset();
    assert_eq!(index.call_count(), 200);
}

#[test]
fn a_chosen_class_has_a_version_that_will_do() {
    let crates = several();
    let index = Index::new(&crates);
    let w = new_wide(s("a"), req(">=0.1.5, <2.1"), s("p"), major(1));
    for low in 0..3 {
        let chosen = index.choose_version(&w, |x| x.major() <= low, &None).unwrap().unwrap();
        let mut asked = index.clone();
        let Ok(Dependencies::Available(deps)) = asked.get_dependencies(&w, &chosen) else {
            panic!("not available")
        };
        let (n, set) = &deps.entries()[0];
        assert_eq!(n, &bucket("a", SemverCompatibility::of(&chosen)));
        let next = index.choose_version(n, |x| set.contains(x), &None).unwrap().unwrap();
        assert!(SemverCompatibility::of(&next) == SemverCompatibility::of(&chosen));
        assert!(req(">=0.1.5, <2.1").matches(&next));
    }
}
