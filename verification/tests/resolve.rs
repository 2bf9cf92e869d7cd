use pubgrub::{resolve, DependencyProvider, PackageResolutionStatistics, PubGrubError};
use pubgrub_crates_benchmark::choice::Bound;
use pubgrub_crates_benchmark::constraints::Dependencies;
use pubgrub_crates_benchmark::hasher::hash_version;
use pubgrub_crates_benchmark::index_data::{Crates, Dependency, DependencyKind, VersionData};
use pubgrub_crates_benchmark::names::Names;
use pubgrub_crates_benchmark::provider::Index;
use pubgrub_crates_benchmark::report::{root_package, summarize, Resolution, Verdict};
use pubgrub_crates_benchmark::selection::SelectedDependencies;
use pubgrub_crates_benchmark::version::{SemverCompatibility, Version, VersionReq};
use pubgrub_crates_benchmark::version_set::VersionSet;
use std::cell::RefCell;
use std::cmp::Reverse;
use std::collections::BTreeSet;
use std::fmt::{Display, Formatter};

fn s(text: &str) -> String {
    text.to_string()
}

fn ours(v: &semver::Version) -> Version {
    Version::from_parts(v.major, v.minor, v.patch, v.pre.as_str(), v.build.as_str()).unwrap()
}

fn theirs(v: &Version) -> semver::Version {
    semver::Version::parse(&v.text()).unwrap()
}

/// A package as the resolver takes it.
#[derive(Clone, Debug, PartialEq, Eq, Hash)]
struct Package(Names);

impl Display for Package {
    fn fmt(&self, f: &mut Formatter<'_>) -> std::fmt::Result {
        f.write_str(&format!("{:?}", self.0))
    }
}

/// The listed versions, or all others.
#[derive(Clone, Debug, PartialEq, Eq)]
struct Listed {
    others: bool,
    versions: BTreeSet<semver::Version>,
}

impl Display for Listed {
    fn fmt(&self, f: &mut Formatter<'_>) -> std::fmt::Result {
        f.write_str(&format!("{:?}", self))
    }
}

impl pubgrub::VersionSet for Listed {
    type V = semver::Version;

    fn empty() -> Self {
        Listed { others: false, versions: BTreeSet::new() }
    }

    fn singleton(v: Self::V) -> Self {
        Listed { others: false, versions: BTreeSet::from([v]) }
    }

    fn complement(&self) -> Self {
        Listed { others: !self.others, versions: self.versions.clone() }
    }

    fn intersection(&self, other: &Self) -> Self {
        let (a, b) = (&self.versions, &other.versions);
        let versions = match (self.others, other.others) {
            (false, false) => a & b,
            (false, true) => a - b,
            (true, false) => b - a,
            (true, true) => a | b,
        };
        Listed { others: self.others && other.others, versions }
    }

    fn contains(&self, v: &Self::V) -> bool {
        self.others != self.versions.contains(v)
    }
}

#[derive(Debug)]
struct Stopped;

impl Display for Stopped {
    fn fmt(&self, f: &mut Formatter<'_>) -> std::fmt::Result {
        f.write_str("stopped")
    }
}

impl std::error::Error for Stopped {}

/// The index, and all versions that can come up.
struct Provider<'a, 'c> {
    index: &'a RefCell<Index<'c>>,
    known: BTreeSet<semver::Version>,
}

impl<'a, 'c> Provider<'a, 'c> {
    fn listed(&self, set: &VersionSet) -> Listed {
        if set.conditions().is_empty() {
            return <Listed as pubgrub::VersionSet>::full();
        }
        let versions = self.known.iter().filter(|v| set.contains(&ours(v))).cloned().collect();
        Listed { others: false, versions }
    }
}

impl<'a, 'c> DependencyProvider for Provider<'a, 'c> {
    type P = Package;
    type V = semver::Version;
    type VS = Listed;
    type M = String;
    type Err = Stopped;
    type Priority = Reverse<usize>;

    fn prioritize(
        &self,
        package: &Package,
        range: &Listed,
        _: &PackageResolutionStatistics,
    ) -> Reverse<usize> {
        let contains = |v: &Version| pubgrub::VersionSet::contains(range, &theirs(v));
        Reverse(self.index.borrow().prioritize(&package.0, contains))
    }

    fn choose_version(
        &self,
        package: &Package,
        range: &Listed,
    ) -> Result<Option<semver::Version>, Stopped> {
        let contains = |v: &Version| pubgrub::VersionSet::contains(range, &theirs(v));
        let bounds = match (range.others, range.versions.last()) {
            (false, Some(v)) => Some((Bound::Unbounded, Bound::Included(ours(v)))),
            _ => None,
        };
        match self.index.borrow().choose_version(&package.0, contains, &bounds) {
            Ok(v) => Ok(v.map(|v| theirs(&v))),
            Err(_) => Err(Stopped),
        }
    }

    fn get_dependencies(
        &self,
        package: &Package,
        version: &semver::Version,
    ) -> Result<pubgrub::Dependencies<Package, Listed, String>, Stopped> {
        let version = ours(version);
        let mut index = self.index.borrow_mut();
        assert!(index.can_answer(&package.0, &version));
        match index.get_dependencies(&package.0, &version) {
            Ok(Dependencies::Available(deps)) => Ok(pubgrub::Dependencies::Available(
                deps.entries()
                    .iter()
                    .map(|(n, set)| (Package(n.clone()), self.listed(set)))
                    .collect(),
            )),
            Ok(Dependencies::Unavailable(why)) => Ok(pubgrub::Dependencies::Unavailable(why)),
            Err(_) => Err(Stopped),
        }
    }

    fn should_cancel(&self) -> Result<(), Stopped> {
        self.index.borrow_mut().should_cancel(false).map_err(|_| Stopped)
    }
}

/// Writes down an index and resolves crates of it.
struct World {
    crates: Crates,
    known: BTreeSet<semver::Version>,
}

impl World {
    fn new() -> World {
        World { crates: Crates::new(), known: BTreeSet::new() }
    }

    fn add(&mut self, data: VersionData) {
        self.known.insert(theirs(&data.vers));
        self.known.insert(theirs(&SemverCompatibility::of(&data.vers).canonical()));
        let number = hash_version(&data.name, &data.vers);
        self.known.insert(semver::Version::new(number, 0, 0));
        self.crates.insert(data);
    }

    fn resolve(&self, name: &str, version: &Version) -> Resolution {
        self.resolve_with(&RefCell::new(Index::new(&self.crates)), name, version)
    }

    fn resolve_with<'c>(
        &'c self,
        index: &RefCell<Index<'c>>,
        name: &str,
        version: &Version,
    ) -> Resolution {
        let provider = Provider { index, known: self.known.clone() };
        let root = root_package(&s(name), version);
        let res = match resolve(&provider, Package(root.clone()), theirs(version)) {
            Ok(map) => {
                let mut sel = SelectedDependencies::new();
                for (n, v) in &map {
                    sel.insert(n.0.clone(), ours(v));
                }
                Resolution::Solved(sel)
            }
            Err(PubGrubError::NoSolution(_)) => Resolution::NoSolution,
            Err(_) => Resolution::Failed,
        };
        if let Resolution::Solved(sel) = &res {
            assert!(provider.index.borrow().can_check(sel));
        }
        let verdict = provider.index.borrow_mut().review(&root, &res, false);
        assert_eq!(verdict, Verdict::Fine);
        res
    }
}

fn dep(name: &str, req: &str, only: Option<SemverCompatibility>) -> Dependency {
    Dependency {
        name: s(name),
        package_name: s(name),
        req: VersionReq::parse(req).unwrap(),
        only_compatibility: only,
        features: vec![],
        optional: false,
        default_features: true,
        kind: DependencyKind::Normal,
    }
}

fn data(name: &str, vers: Version, deps: Vec<Dependency>) -> VersionData {
    VersionData { name: s(name), vers, deps, features: vec![], links: None, yanked: false }
}

fn picked(res: &Resolution, n: &Names) -> Option<String> {
    match res {
        Resolution::Solved(sel) => sel.get(n).map(|v| v.text()),
        _ => None,
    }
}

fn bucket(name: &str, major: u64) -> Names {
    Names::Bucket(s(name), SemverCompatibility::Major(major), false)
}

#[test]
fn a_solution_passes_the_check() {
    let one = Some(SemverCompatibility::Major(1));
    let mut world = World::new();
    let mut optional = dep("log", "^1", one);
    optional.optional = true;
    let mut a = data("a", Version::new(1, 5, 0), vec![dep("log", ">=1", None), optional]);
    a.features = vec![(s("default"), vec![s("log"), s("dep:log")]), (s("x"), vec![s("log?/std")])];
    world.add(a);
    for v in [Version::new(1, 0, 0), Version::new(1, 2, 0), Version::new(2, 0, 0)] {
        let mut log = data("log", v, vec![]);
        log.features = vec![(s("std"), vec![])];
        world.add(log);
    }
    let mut yanked = data("log", Version::new(1, 3, 0), vec![]);
    yanked.yanked = true;
    world.add(yanked);
    let mut z = data("z-sys", Version::new(1, 0, 0), vec![]);
    z.links = Some(s("z"));
    world.add(z);
    let mut on_a = dep("a", "^1", one);
    on_a.features = vec![s("x")];
    let top = data("top", Version::new(0, 1, 0), vec![on_a, dep("z-sys", "^1", one), dep("log", "<1.2", one)]);
    world.add(top);
    let res = world.resolve("top", &Version::new(0, 1, 0));
    assert_eq!(picked(&res, &bucket("a", 1)), Some(s("1.5.0")));
    assert_eq!(picked(&res, &bucket("log", 1)), Some(s("1.0.0")));
    assert_eq!(picked(&res, &bucket("z-sys", 1)), Some(s("1.0.0")));
    let line = summarize(s("top"), Version::new(0, 1, 0), &res);
    assert!(line.succeeded);
    assert!(line.deps >= 4 && line.deps < line.pubgrub_deps);
    let alone = world.resolve("log", &Version::new(2, 0, 0));
    let line = summarize(s("log"), Version::new(2, 0, 0), &alone);
    assert_eq!((line.succeeded, line.pubgrub_deps, line.deps), (true, 1, 1));
}

#[test]
fn yanked_versions_are_passed_over() {
    let one = Some(SemverCompatibility::Major(1));
    let mut world = World::new();
    world.add(data("a", Version::new(1, 0, 0), vec![]));
    let mut yanked = data("a", Version::new(1, 1, 0), vec![]);
    yanked.yanked = true;
    world.add(yanked);
    world.add(data("top", Version::new(1, 0, 0), vec![dep("a", "^1", one)]));
    world.add(data("late", Version::new(1, 0, 0), vec![dep("a", "^1.1", one)]));
    let res = world.resolve("top", &Version::new(1, 0, 0));
    assert_eq!(picked(&res, &bucket("a", 1)), Some(s("1.0.0")));
    assert!(matches!(world.resolve("late", &Version::new(1, 0, 0)), Resolution::NoSolution));
}

#[test]
fn two_crates_that_link_one_library_exclude_each_other() {
    let one = Some(SemverCompatibility::Major(1));
    let mut world = World::new();
    for name in ["a", "b"] {
        let mut d = data(name, Version::new(1, 0, 0), vec![]);
        d.links = Some(s("z"));
        world.add(d);
    }
    world.add(data("both", Version::new(1, 0, 0), vec![dep("a", "^1", one), dep("b", "^1", one)]));
    world.add(data("single", Version::new(1, 0, 0), vec![dep("b", "^1", one)]));
    assert!(matches!(world.resolve("both", &Version::new(1, 0, 0)), Resolution::NoSolution));
    let res = world.resolve("single", &Version::new(1, 0, 0));
    assert_eq!(picked(&res, &Names::Links(s("z"))).is_some(), true);
}

#[test]
fn earlier_runs_leave_the_outcome_alone() {
    let one = Some(SemverCompatibility::Major(1));
    let mut world = World::new();
    for patch in 0..3 {
        world.add(data("a", Version::new(1, 0, patch), vec![]));
        world.add(data("b", Version::new(1, 0, patch), vec![dep("a", "<1.0.2", one)]));
    }
    world.add(data("top", Version::new(1, 0, 0), vec![dep("b", ">=1", None), dep("a", "*", None)]));
    let used = RefCell::new(Index::new(&world.crates));
    for v in [Version::new(1, 0, 2), Version::new(1, 0, 0)] {
        world.resolve_with(&used, "b", &v);
    }
    let calls = used.borrow().call_count();
    assert!(calls > 0 && !used.borrow().recorded_list().is_empty());
    used.borrow_mut().reset();
    let top = Version::new(1, 0, 0);
    let after = summarize(s("top"), top.clone(), &world.resolve_with(&used, "top", &top));
    let fresh = RefCell::new(Index::new(&world.crates));
    let alone = summarize(s("top"), top.clone(), &world.resolve_with(&fresh, "top", &top));
    assert!(after.succeeded);
    assert_eq!(after.succeeded, alone.succeeded);
    assert_eq!((after.pubgrub_deps, after.deps), (alone.pubgrub_deps, alone.deps));
    let mut recorded: Vec<String> = used.borrow().recorded_list().iter().map(|p| format!("{:?}", p)).collect();
    let mut expected: Vec<String> = fresh.borrow().recorded_list().iter().map(|p| format!("{:?}", p)).collect();
    recorded.sort();
    expected.sort();
    assert_eq!(recorded, expected);
}
