use pubgrub_crates_benchmark::index_data::{Crates, Dependency, DependencyKind, VersionData};
use pubgrub_crates_benchmark::names::{new_bucket, new_wide, Names};
use pubgrub_crates_benchmark::provider::Index;
use pubgrub_crates_benchmark::report::{root_package, summarize, Resolution, Verdict};
use pubgrub_crates_benchmark::selection::SelectedDependencies;
use pubgrub_crates_benchmark::version::{SemverCompatibility, Version, VersionReq};

fn s(text: &str) -> String {
    text.to_string()
}

fn dep(name: &str) -> Dependency {
    Dependency {
        name: s(name),
        package_name: s(name),
        req: VersionReq::parse("^1").unwrap(),
        only_compatibility: Some(SemverCompatibility::Major(1)),
        features: vec![],
        optional: false,
        default_features: true,
        kind: DependencyKind::Normal,
    }
}

fn data(name: &str, vers: Version, deps: Vec<Dependency>) -> VersionData {
    VersionData { name: s(name), vers, deps, features: vec![], links: None, yanked: false }
}

fn small() -> Crates {
    let mut crates = Crates::new();
    crates.insert(data("top", Version::from_parts(1, 0, 0, "rc.1", "").unwrap(), vec![dep("b"), dep("a")]));
    for patch in [10, 9] {
        crates.insert(data("a", Version::new(1, 0, patch), vec![]));
    }
    let mut yanked = data("a", Version::new(1, 1, 0), vec![]);
    yanked.yanked = true;
    crates.insert(yanked);
    crates.insert(data("b", Version::new(1, 0, 0), vec![dep("a")]));
    crates
}

fn top() -> (Names, Version) {
    let v = Version::from_parts(1, 0, 0, "rc.1", "").unwrap();
    (root_package(&s("top"), &v), v)
}

fn bucket(name: &str) -> Names {
    new_bucket(s(name), SemverCompatibility::Major(1), false)
}

fn solved() -> SelectedDependencies {
    let mut sel = SelectedDependencies::new();
    let (root, v) = top();
    sel.insert(root, v);
    for (name, v) in [("a", Version::new(1, 0, 10)), ("b", Version::new(1, 0, 0))] {
        sel.insert(bucket(name), v.clone());
        sel.insert(bucket(name).with_features(s("default")), v);
    }
    sel
}

#[test]
fn the_root_is_a_crate_with_all_its_features() {
    let v = Version::new(0, 3, 1);
    let want = new_bucket(s("a"), SemverCompatibility::Minor(3), true);
    assert_eq!(root_package(&s("a"), &v), want);
}

#[test]
fn a_summary_counts_packages_and_crates() {
    let (_, v) = top();
    let line = summarize(s("top"), v.clone(), &Resolution::Solved(solved()));
    assert_eq!(line.name, "top");
    assert_eq!(line.ver, v);
    assert!(line.succeeded);
    assert_eq!((line.pubgrub_deps, line.deps), (5, 3));
    for res in [Resolution::NoSolution, Resolution::Failed] {
        let line = summarize(s("top"), v.clone(), &res);
        assert_eq!((line.succeeded, line.pubgrub_deps, line.deps), (false, 0, 0));
    }
}

#[test]
fn what_is_done_after_a_resolution() {
    let crates = small();
    let mut dp = Index::new(&crates);
    let (root, v) = top();
    assert_eq!(dp.review(&root, &Resolution::NoSolution, false), Verdict::Fine);
    assert_eq!(dp.review(&root, &Resolution::NoSolution, true), Verdict::WriteFiles);
    assert_eq!(dp.review(&root, &Resolution::Failed, false), Verdict::WriteFiles);
    assert_eq!(dp.review(&root, &Resolution::Failed, true), Verdict::WriteFiles);
    assert!(dp.recorded_list().is_empty());
    let good = Resolution::Solved(solved());
    assert_eq!(dp.review(&root, &good, false), Verdict::Fine);
    assert_eq!(dp.review(&root, &good, true), Verdict::WriteFiles);
    // the default feature of `b` is demanded by the root alone, so the walk leaves it out
    assert_eq!(dp.recorded_list().len(), 4);
    let mut sel = SelectedDependencies::new();
    sel.insert(root.clone(), v);
    assert_eq!(dp.review(&root, &Resolution::Solved(sel), true), Verdict::FailedCheck);
}

#[test]
fn the_files_hold_what_was_asked() {
    let crates = small();
    let mut dp = Index::new(&crates);
    let (root, v) = top();
    let wide = new_wide(s("a"), VersionReq::parse("*").unwrap(), s("b"), SemverCompatibility::Major(1));
    let feature = bucket("a").with_features(s("default"));
    let asked = [
        (bucket("b"), Version::new(1, 0, 0)),
        (bucket("a"), Version::new(1, 0, 10)),
        (root.clone(), v.clone()),
        (wide.clone(), Version::new(1, 0, 0)),
        (feature.clone(), Version::new(1, 0, 9)),
        (feature.clone(), Version::new(1, 0, 10)),
        (bucket("a"), Version::new(1, 1, 0)),
    ];
    for (n, v) in &asked {
        assert!(dp.get_dependencies(n, v).is_ok());
    }
    let file = dp.make_index_ron_file();
    assert_eq!(file.name, "out/index_ron/top@1.0.0-rc.1.ron");
    let held: Vec<(String, String)> =
        file.versions.iter().map(|d| (d.name.clone(), d.vers.text())).collect();
    let want = [("a", "1.0.9"), ("a", "1.0.10"), ("a", "1.1.0"), ("b", "1.0.0"), ("top", "1.0.0-rc.1")];
    let want: Vec<(String, String)> = want.iter().map(|(n, v)| (s(n), s(v))).collect();
    assert_eq!(held, want);

    let file = dp.make_pubgrub_ron_file();
    assert_eq!(file.name, "out/pubgrub_ron/top@1.0.0-rc.1.ron");
    assert_eq!(file.entries.len(), 6);
    for (n, v) in &asked[..6] {
        let found: Vec<_> = file.entries.iter().filter(|e| &e.0 == n && &e.1 == v).collect();
        assert_eq!(found.len(), 1);
    }
    let of_root = file.entries.iter().find(|e| e.0 == root).unwrap();
    let demanded: Vec<Names> = of_root.2.entries().iter().map(|(n, _)| n.clone()).collect();
    let want = vec![
        bucket("b"),
        bucket("b").with_features(s("default")),
        bucket("a"),
        bucket("a").with_features(s("default")),
    ];
    assert_eq!(demanded, want);
    assert_eq!(dp.recorded_list().len(), 7);
}

#[test]
fn the_part_that_was_asked_for_gives_the_same_answers() {
    let crates = small();
    let mut dp = Index::new(&crates);
    let (root, _) = top();
    assert_eq!(dp.review(&root, &Resolution::Solved(solved()), false), Verdict::Fine);
    let mut part = Crates::new();
    for d in dp.make_index_ron_file().versions {
        let deps = d.deps.iter().map(|x| dep(&x.name)).collect();
        part.insert(data(&d.name, d.vers.clone(), deps));
    }
    assert!(part.get_version(&s("a"), &Version::new(1, 0, 9)).is_none());
    let mut again = Index::new(&part);
    for (n, v) in dp.recorded_list().clone() {
        assert!(again.can_answer(&n, &v));
        let (a, b) = (dp.get_dependencies(&n, &v), again.get_dependencies(&n, &v));
        assert_eq!(format!("{:?}", a), format!("{:?}", b));
    }
    assert_eq!(again.review(&root, &Resolution::Solved(solved()), false), Verdict::Fine);
}

#[test]
fn the_index_file_bears_the_name_of_the_first_root() {
    let mut crates = Crates::new();
    let versions = [
        ("b", Version::new(1, 1, 0)),
        ("b", Version::new(1, 0, 0)),
        ("b", Version::new(0, 9, 0)),
        ("b", Version::new(2, 0, 0)),
        ("c", Version::new(1, 0, 0)),
    ];
    for (name, v) in &versions {
        crates.insert(data(name, v.clone(), vec![]));
    }
    let named = |order: &[usize]| {
        let mut dp = Index::new(&crates);
        for i in order {
            let (name, v) = &versions[*i];
            assert!(dp.get_dependencies(&root_package(&s(name), v), v).is_ok());
        }
        dp.make_index_ron_file().name
    };
    assert_eq!(named(&[0]), "out/index_ron/b@1.1.0.ron");
    assert_eq!(named(&[0, 1]), "out/index_ron/b@1.0.0.ron");
    assert_eq!(named(&[1, 0]), "out/index_ron/b@1.0.0.ron");
    assert_eq!(named(&[4, 3, 0]), "out/index_ron/b@1.1.0.ron");
    assert_eq!(named(&[2, 3]), "out/index_ron/b@2.0.0.ron");
    assert_eq!(named(&[4, 2]), "out/index_ron/b@0.9.0.ron");
    // a package that is not the one to be resolved does not count
    let mut dp = Index::new(&crates);
    assert!(dp.get_dependencies(&bucket("b"), &Version::new(1, 0, 0)).is_ok());
    assert!(dp.get_dependencies(&root_package(&s("c"), &Version::new(1, 0, 0)), &Version::new(1, 0, 0)).is_ok());
    assert_eq!(dp.make_index_ron_file().name, "out/index_ron/c@1.0.0.ron");
}

#[test]
fn the_file_name_tells_the_root() {
    let mut crates = Crates::new();
    for (name, v) in [("a-b", "1.0.0-rc.1+x"), ("a", "0.1.2")] {
        let v = Version::parse(v).unwrap();
        crates.insert(data(name, v.clone(), vec![]));
        let mut dp = Index::new(&crates);
        assert!(dp.get_dependencies(&root_package(&s(name), &v), &v).is_ok());
        for file in [dp.make_index_ron_file().name, dp.make_pubgrub_ron_file().name] {
            let last = file.rsplit('/').next().unwrap();
            let (crt, rest) = last.split_once('@').unwrap();
            assert_eq!(crt, name);
            assert_eq!(Version::parse(rest.strip_suffix(".ron").unwrap()), Some(v.clone()));
        }
    }
}
