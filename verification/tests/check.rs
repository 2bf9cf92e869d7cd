use pubgrub_crates_benchmark::hasher::hash_version;
use pubgrub_crates_benchmark::index_data::{Crates, Dependency, DependencyKind, VersionData};
use pubgrub_crates_benchmark::names::{new_bucket, new_links, new_wide, Names};
use pubgrub_crates_benchmark::provider::Index;
use pubgrub_crates_benchmark::selection::SelectedDependencies;
use pubgrub_crates_benchmark::version::{SemverCompatibility, Version, VersionReq};
use pubgrub_crates_benchmark::walk::DEPTH_LIMIT;

fn s(text: &str) -> String {
    text.to_string()
}

fn one() -> Version {
    Version::new(1, 0, 0)
}

fn first() -> SemverCompatibility {
    SemverCompatibility::Major(1)
}

fn dep(name: &str) -> Dependency {
    Dependency {
        name: s(name),
        package_name: s(name),
        req: VersionReq::parse("^1").unwrap(),
        only_compatibility: Some(first()),
        features: vec![],
        optional: false,
        default_features: false,
        kind: DependencyKind::Normal,
    }
}

fn data(name: &str, deps: Vec<Dependency>) -> VersionData {
    VersionData {
        name: s(name),
        vers: one(),
        deps,
        features: vec![],
        links: None,
        yanked: false,
    }
}

fn bucket(name: &str) -> Names {
    new_bucket(s(name), first(), false)
}

fn feature(name: &str, feat: &str) -> Names {
    bucket(name).with_features(s(feat))
}

fn root() -> Names {
    new_bucket(s("root"), first(), true)
}

fn index(list: Vec<VersionData>) -> Crates {
    let mut crates = Crates::new();
    for d in list {
        crates.insert(d);
    }
    crates
}

fn selected(list: Vec<Names>) -> SelectedDependencies {
    let mut sel = SelectedDependencies::new();
    for n in list {
        sel.insert(n, one());
    }
    sel
}

fn depth(crates: &Crates, sel: &SelectedDependencies) -> Option<usize> {
    Index::new(crates).depth(&root(), sel)
}

fn check(crates: &Crates, sel: &SelectedDependencies) -> bool {
    let mut dp = Index::new(crates);
    assert!(dp.can_check(sel));
    dp.check(&root(), sel)
}

#[test]
fn selections_hold_the_last_version() {
    let mut sel = SelectedDependencies::new();
    assert_eq!(sel.len(), 0);
    sel.insert(bucket("a"), Version::new(1, 1, 0));
    sel.insert(bucket("b"), one());
    sel.insert(bucket("a"), Version::new(1, 2, 0));
    assert_eq!(sel.len(), 2);
    assert_eq!(sel.get(&bucket("a")), Some(&Version::new(1, 2, 0)));
    assert_eq!(sel.get(&bucket("c")), None);
    assert_eq!(sel.entries().len(), 2);
}

#[test]
fn the_longest_chain_counts() {
    let crates = index(vec![
        data("root", vec![dep("a"), dep("c")]),
        data("a", vec![dep("b")]),
        data("b", vec![dep("c")]),
        data("c", vec![]),
    ]);
    let sel = selected(vec![root(), bucket("a"), bucket("b"), bucket("c")]);
    assert_eq!(depth(&crates, &sel), Some(3));
    assert_eq!(depth(&index(vec![data("root", vec![])]), &selected(vec![root()])), Some(0));
    let mut dp = Index::new(&crates);
    assert_eq!(dp.depth(&root(), &sel), Some(3));
    assert_eq!(dp.recorded_list().len(), 4);
}

#[test]
fn only_crates_add_to_the_depth() {
    let mut with_feature = dep("b");
    with_feature.features = vec![s("f")];
    let mut of_b = data("b", vec![]);
    of_b.features = vec![(s("f"), vec![])];
    let crates = index(vec![data("root", vec![dep("a")]), data("a", vec![with_feature]), of_b]);
    let sel = selected(vec![root(), bucket("a"), bucket("b"), feature("b", "f")]);
    // root, a, the feature of b at the depth of a, and then b below it
    assert_eq!(depth(&crates, &sel), Some(2));
}

#[test]
fn missing_and_unusable_packages_end_the_walk() {
    let crates = index(vec![data("root", vec![dep("a")]), data("a", vec![])]);
    assert_eq!(depth(&crates, &selected(vec![])), None);
    assert_eq!(depth(&crates, &selected(vec![root()])), None);
    assert_eq!(depth(&crates, &selected(vec![root(), bucket("a")])), Some(1));
    let mut yanked = data("a", vec![]);
    yanked.yanked = true;
    let crates = index(vec![data("root", vec![dep("a")]), yanked]);
    let sel = selected(vec![root(), bucket("a")]);
    assert_eq!(depth(&crates, &sel), None);
    assert!(!check(&crates, &sel));
}

#[test]
fn what_the_root_demands_besides_crates_is_not_followed() {
    let mut wide = dep("a");
    wide.only_compatibility = None;
    let mut linked = data("root", vec![wide]);
    linked.links = Some(s("z"));
    let crates = index(vec![linked]);
    // neither the requirement on `a` nor the library is selected
    assert_eq!(depth(&crates, &selected(vec![root()])), Some(0));
}

#[test]
fn cycles_reach_the_limit() {
    let crates = index(vec![
        data("root", vec![dep("a")]),
        data("a", vec![dep("b")]),
        data("b", vec![dep("a")]),
    ]);
    let sel = selected(vec![root(), bucket("a"), bucket("b")]);
    assert_eq!(depth(&crates, &sel), Some(DEPTH_LIMIT));
    assert!(check(&crates, &sel));
}

fn in_a_row(n: usize) -> (Crates, SelectedDependencies) {
    let mut list = vec![data("root", vec![dep("c1")])];
    let mut names = vec![root()];
    for i in 1..=n {
        let next = if i < n { vec![dep(&format!("c{}", i + 1))] } else { vec![] };
        list.push(data(&format!("c{}", i), next));
        names.push(bucket(&format!("c{}", i)));
    }
    (index(list), selected(names))
}

#[test]
fn long_chains_reach_the_limit() {
    for (n, want) in [(1, 1), (98, 98), (99, 99), (100, 99), (120, 99)] {
        let (crates, sel) = in_a_row(n);
        assert_eq!(depth(&crates, &sel), Some(want));
        assert!(check(&crates, &sel));
    }
}

#[test]
fn a_selection_with_all_that_is_needed_passes() {
    let mut on_b = dep("b");
    on_b.default_features = true;
    on_b.features = vec![s("f"), s("")];
    let mut of_b = data("b", vec![]);
    of_b.features = vec![(s("f"), vec![]), (s(""), vec![])];
    let crates = index(vec![data("root", vec![dep("a")]), data("a", vec![on_b]), of_b]);
    let all = vec![
        root(),
        bucket("a"),
        bucket("b"),
        feature("b", "default"),
        feature("b", "f"),
        feature("b", ""),
    ];
    assert!(check(&crates, &selected(all.clone())));
    for left_out in 0..all.len() {
        let mut fewer = all.clone();
        fewer.remove(left_out);
        let sel = selected(fewer);
        let mut dp = Index::new(&crates);
        if dp.can_check(&sel) {
            assert!(!dp.check(&root(), &sel));
        } else {
            // the crate of the features is missing
            assert_eq!(left_out, 2);
        }
    }
}

#[test]
fn optional_dependencies_count_with_their_feature() {
    let mut optional = dep("b");
    optional.optional = true;
    let mut dev = dep("d");
    dev.kind = DependencyKind::Dev;
    let mut build = dep("e");
    build.kind = DependencyKind::Build;
    let crates = index(vec![
        data("root", vec![dep("a")]),
        data("a", vec![optional, dev, build]),
        data("b", vec![]),
        data("e", vec![]),
    ]);
    assert!(check(&crates, &selected(vec![root(), bucket("a"), bucket("e")])));
    assert!(!check(&crates, &selected(vec![root(), bucket("a")])));
    let with = vec![root(), bucket("a"), bucket("e"), feature("a", "b")];
    assert!(!check(&crates, &selected(with.clone())));
    let mut with_b = with;
    with_b.push(bucket("b"));
    assert!(check(&crates, &selected(with_b)));
}

#[test]
fn classes_have_to_fit_the_versions() {
    let two = SemverCompatibility::Major(2);
    let mut crates = index(vec![data("root", vec![]), data("a", vec![])]);
    assert!(!check(&crates, &selected(vec![root(), new_bucket(s("a"), two, false)])));
    let mut next = data("a", vec![]);
    next.vers = Version::new(2, 0, 0);
    next.features = vec![(s("f"), vec![])];
    crates.insert(next);
    let mut sel = selected(vec![root()]);
    sel.insert(new_bucket(s("a"), two, false), Version::new(2, 0, 0));
    assert!(check(&crates, &sel));
    // a feature at another version than its crate
    let mut other = data("a", vec![]);
    other.vers = Version::new(2, 1, 0);
    other.features = vec![(s("f"), vec![])];
    crates.insert(other);
    let f = Names::BucketFeatures(s("a"), two, s("f"));
    sel.insert(f.clone(), Version::new(2, 1, 0));
    assert!(!check(&crates, &sel));
    sel.insert(f.clone(), Version::new(2, 0, 0));
    assert!(check(&crates, &sel));
    // a feature of the wrong class
    sel.insert(bucket("a"), one());
    sel.insert(feature("a", "default"), Version::new(2, 0, 0));
    assert!(!check(&crates, &sel));
}

#[test]
fn the_root_does_not_stand_for_a_dependency() {
    let crates = index(vec![data("root", vec![dep("a")]), data("a", vec![dep("root")])]);
    assert!(!check(&crates, &selected(vec![root(), bucket("a")])));
    // as a dependency it may have the class of the root
    assert!(check(&crates, &selected(vec![root(), bucket("a"), bucket("root")])));
}

#[test]
fn a_library_is_linked_by_one_crate() {
    let mut a = data("a", vec![]);
    a.links = Some(s("z"));
    let mut b = data("b", vec![]);
    b.links = Some(s("z"));
    let mut list = selected(vec![root(), bucket("a"), bucket("b")]);
    list.insert(new_links(s("z")), Version::new(hash_version("a", &one()), 0, 0));
    let crates = index(vec![data("root", vec![dep("a"), dep("b")]), a, b]);
    assert!(!check(&crates, &list));
    let mut b = data("b", vec![]);
    b.links = Some(s("y"));
    list.insert(new_links(s("y")), Version::new(hash_version("b", &one()), 0, 0));
    let mut a = data("a", vec![]);
    a.links = Some(s("z"));
    let crates = index(vec![data("root", vec![dep("a"), dep("b")]), a, b]);
    assert!(check(&crates, &list));
}

#[test]
fn requirements_are_met_by_any_selected_class() {
    let mut wide = dep("b");
    wide.req = VersionReq::parse(">=1").unwrap();
    wide.only_compatibility = None;
    let of_a = data("a", vec![wide]);
    let mut of_b = data("b", vec![]);
    of_b.vers = Version::new(3, 2, 0);
    let crates = index(vec![data("root", vec![dep("a")]), of_a, of_b]);
    let w = new_wide(s("b"), VersionReq::parse(">=1").unwrap(), s("a"), first());
    let mut sel = selected(vec![root(), bucket("a")]);
    sel.insert(w, Version::new(3, 0, 0));
    assert!(!check(&crates, &sel));
    sel.insert(new_bucket(s("b"), SemverCompatibility::Major(3), false), Version::new(3, 2, 0));
    assert!(check(&crates, &sel));
}

#[test]
fn incomplete_selections_are_told() {
    let mut bad = data("a", vec![]);
    bad.features = vec![(s("bad"), vec![s("x/y/z")])];
    let crates = index(vec![data("root", vec![]), bad]);
    let dp = Index::new(&crates);
    assert!(dp.can_check(&selected(vec![root(), bucket("a"), feature("a", "default")])));
    assert!(!dp.can_check(&selected(vec![root(), feature("a", "default")])));
    assert!(!dp.can_check(&selected(vec![root(), bucket("b")])));
    assert!(!dp.can_check(&selected(vec![root(), bucket("a"), feature("a", "bad")])));
}

#[test]
fn a_missing_package_near_the_root_is_found_before_the_limit() {
    let crates = index(vec![
        data("root", vec![dep("b"), dep("e")]),
        data("b", vec![dep("c")]),
        data("c", vec![dep("b")]),
        data("e", vec![]),
    ]);
    let sel = selected(vec![root(), bucket("b"), bucket("c")]);
    assert_eq!(depth(&crates, &sel), None);
    assert!(!check(&crates, &sel));
    let sel = selected(vec![root(), bucket("b"), bucket("c"), bucket("e")]);
    assert_eq!(depth(&crates, &sel), Some(DEPTH_LIMIT));
    assert!(check(&crates, &sel));
}

/// A row of `n` crates of which the last is not selected, beside a cycle.
fn broken_row_and_cycle(n: usize) -> (Crates, SelectedDependencies) {
    let mut list = vec![
        data("root", vec![dep("x"), dep("c1")]),
        data("x", vec![dep("y")]),
        data("y", vec![dep("x")]),
    ];
    let mut names = vec![root(), bucket("x"), bucket("y")];
    for i in 1..=n {
        let next = if i < n { vec![dep(&format!("c{}", i + 1))] } else { vec![] };
        list.push(data(&format!("c{}", i), next));
        if i < n {
            names.push(bucket(&format!("c{}", i)));
        }
    }
    (index(list), selected(names))
}

#[test]
fn a_missing_package_within_98_steps_is_always_found() {
    for n in [1, 2, 50, 97, 98] {
        let (crates, sel) = broken_row_and_cycle(n);
        assert_eq!(depth(&crates, &sel), None);
        assert!(!check(&crates, &sel));
    }
}

#[test]
fn the_limit_is_found_before_a_missing_package_far_away() {
    // a row of requirements, each two steps and one crate long, beside a cycle
    let mut list = vec![
        data("root", vec![dep("x"), dep("c1")]),
        data("x", vec![dep("y")]),
        data("y", vec![dep("x")]),
    ];
    let mut sel = selected(vec![root(), bucket("x"), bucket("y")]);
    for i in 1..=60 {
        let mut next = dep(&format!("c{}", i + 1));
        next.only_compatibility = None;
        let name = format!("c{}", i);
        sel.insert(bucket(&name), one());
        sel.insert(new_wide(next.package_name.clone(), next.req.clone(), s(&name), first()), one());
        list.push(data(&name, vec![next]));
    }
    assert_eq!(depth(&index(list), &sel), Some(DEPTH_LIMIT));
}

#[test]
fn what_lies_behind_a_missing_package_is_not_asked_for() {
    // `b` is selected at a version that the index does not hold
    let crates = index(vec![data("root", vec![dep("missing"), dep("a")]), data("a", vec![dep("b")])]);
    let sel = selected(vec![root(), bucket("a"), bucket("b")]);
    let mut dp = Index::new(&crates);
    assert!(!dp.can_answer(&bucket("b"), &one()));
    assert_eq!(dp.depth(&root(), &sel), None);
    assert!(!dp.check(&root(), &sel));
}
