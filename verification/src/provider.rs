//! The index as the resolver asks it: which versions a package can have, how urgent it
//! is, and what it demands.

use vstd::prelude::*;
use crate::choice::{
    candidates, canonical_classes, choose_from, classes_meeting, count_in, counted, decides, descending,
    drop_repeats, first_with, lemma_classes_meeting, Bound,
};
use crate::constraints::{combined, Dependencies, DependenciesView, DependencyConstraints};
use crate::demands::{
    bucket_answer, bucket_dependencies, feature_answer, feature_can_be_read, feature_dependencies, feature_is_readable,
    wide_demands, wide_dependencies, wide_feature_demands, wide_feature_dependencies,
};
use crate::error::SomeError;
use crate::index_data::{ascending, Crates, VersionData};
use crate::names::{Names, NamesView};
use crate::version::{SemverCompatibility, Version, VersionReq, VersionView};

verus! {

/// How many calls of [`Index::should_cancel`] pass between two looks at the clock.
pub const CALLS_PER_CLOCK_CHECK: u64 = 64;

/// The index, with a record of what was asked of it.
pub struct Index<'c> {
    crates: &'c Crates,
    dependencies: Vec<(Names, Version)>,
    call_count: u64,
}

/// A package at a version.
pub type Pinned = (NamesView, VersionView);

/// What a list of questions asks.
spec fn recorded_in(list: Seq<(Names, Version)>) -> Set<Pinned> {
    Set::new(|p: Pinned| exists|i: int| recorded_at(list, i, p))
}

spec fn asked_once(list: Seq<(Names, Version)>) -> bool {
    forall|i: int, j: int|
        #![trigger list[i], list[j]]
        0 <= i < j < list.len() ==> !(list[i].0@ == list[j].0@ && list[i].1@ == list[j].1@)
}

spec fn recorded_at(list: Seq<(Names, Version)>, i: int, p: Pinned) -> bool {
    0 <= i < list.len() && list[i].0@ == p.0 && list[i].1@ == p.1
}

/// What a package demands at a version.
pub open spec fn dependencies_of(crates: Crates, package: NamesView, v: VersionView) -> DependenciesView {
    match package {
        NamesView::Bucket(name, compat, all) => bucket_answer(
            crates.lookup(name, v)->0,
            name,
            compat,
            all,
            v,
        ),
        NamesView::BucketFeatures(name, compat, feat) => feature_answer(
            crates.lookup(name, v)->0,
            name,
            compat,
            feat,
            v,
        ),
        NamesView::Wide(name, req, _, _) => DependenciesView::Available(
            combined(wide_demands(name, req, v)),
        ),
        NamesView::WideFeatures(name, req, parent, parent_compat, feat) =>
            DependenciesView::Available(
                combined(wide_feature_demands(name, req, parent, parent_compat, feat, v)),
            ),
        NamesView::Links(_) => DependenciesView::Available(combined(Seq::empty())),
    }
}

/// The question what a package demands at a version has an answer: the version is in
/// the index and the feature list can be read.
pub open spec fn answerable(crates: Crates, package: NamesView, v: VersionView) -> bool {
    match package {
        NamesView::Bucket(name, _, _) => crates.lookup(name, v) is Some,
        NamesView::BucketFeatures(name, _, feat) => crates.lookup(name, v) matches Some(data)
            && feature_is_readable(data, name, feat, v),
        _ => true,
    }
}

impl<'c> Clone for Index<'c> {
    fn clone(&self) -> (r: Self)
        ensures
            r.crates() == self.crates(),
            r.recorded() == self.recorded(),
            r.calls() == self.calls(),
    {
        let mut dependencies: Vec<(Names, Version)> = Vec::new();
        let mut i: usize = 0;
        while i < self.dependencies.len()
            invariant
                i <= self.dependencies.len(),
                dependencies@ == self.dependencies@.take(i as int),
            decreases self.dependencies.len() - i,
        {
            dependencies.push((self.dependencies[i].0.clone(), self.dependencies[i].1.clone()));
            i += 1;
        }
        proof {
            use_type_invariant(self);
            assert(self.dependencies@.take(i as int) =~= self.dependencies@);
            assert(self.recorded() == recorded_in(self.dependencies@));
        }
        Index { crates: self.crates, dependencies, call_count: self.call_count }
    }
}

impl<'c> Index<'c> {
    /// The index that is asked.
    pub closed spec fn crates(self) -> Crates {
        *self.crates
    }

    /// What the index was asked for since the last reset.
    pub closed spec fn recorded(self) -> Set<Pinned> {
        recorded_in(self.dependencies@)
    }

    /// How often it was asked whether to go on.
    pub closed spec fn calls(self) -> u64 {
        self.call_count
    }

    /// Nothing was asked that has no answer, and each question is recorded once.
    #[verifier::type_invariant]
    pub closed spec fn wf(self) -> bool {
        &&& forall|p: Pinned| #[trigger]
            self.recorded().contains(p) ==> answerable(self.crates(), p.0, p.1)
        &&& asked_once(self.dependencies@)
    }

    /// What was asked has an answer.
    pub proof fn recorded_is_answerable(self, p: Pinned)
        requires
            self.wf(),
            self.recorded().contains(p),
        ensures
            answerable(self.crates(), p.0, p.1),
    {
    }

    /// An index of which nothing was asked yet.
    pub fn new(crates: &'c Crates) -> (r: Self)
        ensures
            r.crates() == *crates,
            r.recorded() == Set::<Pinned>::empty(),
            r.calls() == 0,
    {
        let dependencies: Vec<(Names, Version)> = Vec::new();
        let r = Index { crates, dependencies, call_count: 0 };
        assert(r.recorded() =~= Set::<Pinned>::empty());
        r
    }

    /// Forgets what was asked.
    pub fn reset(&mut self)
        ensures
            final(self).crates() == old(self).crates(),
            final(self).recorded() == Set::<Pinned>::empty(),
            final(self).calls() == old(self).calls(),
    {
        self.dependencies = Vec::new();
        assert(self.recorded() =~= Set::<Pinned>::empty());
    }

    /// What was asked, as a list, each question once.
    pub fn recorded_list(&self) -> (r: &Vec<(Names, Version)>)
        ensures
            forall|i: int, j: int|
                #![trigger r@[i], r@[j]]
                0 <= i < j < r@.len() ==> !(r@[i].0@ == r@[j].0@ && r@[i].1@ == r@[j].1@),
            forall|i: int|
                0 <= i < r@.len() ==> self.recorded().contains(
                    ((#[trigger] r@[i]).0@, r@[i].1@),
                ),
            forall|p: Pinned| #[trigger]
                self.recorded().contains(p) ==> exists|i: int|
                    0 <= i < r@.len() && (#[trigger] r@[i]).0@ == p.0 && r@[i].1@ == p.1,
    {
        proof {
            use_type_invariant(self);
            let list = self.dependencies@;
            assert forall|i: int| 0 <= i < list.len() implies self.recorded().contains(
                ((#[trigger] list[i]).0@, list[i].1@),
            ) by {
                assert(recorded_at(list, i, (list[i].0@, list[i].1@)));
            }
            assert forall|p: Pinned| #[trigger] self.recorded().contains(p) implies exists|i: int|
                0 <= i < list.len() && (#[trigger] list[i]).0@ == p.0 && list[i].1@ == p.1 by {
                let i = choose|i: int| recorded_at(list, i, p);
                assert(list[i].0@ == p.0);
            }
        }
        &self.dependencies
    }

    fn record(&mut self, package: &Names, version: &Version)
        requires
            answerable(old(self).crates(), package@, version@),
        ensures
            final(self).crates() == old(self).crates(),
            final(self).recorded() == old(self).recorded().insert((package@, version@)),
            final(self).calls() == old(self).calls(),
    {
        proof {
            use_type_invariant(&*self);
        }
        let ghost before = self.dependencies@;
        let ghost p = (package@, version@);
        let mut i: usize = 0;
        while i < self.dependencies.len()
            invariant
                self.dependencies@ == before,
                i <= before.len(),
                p == (package@, version@),
                *self == *old(self),
                forall|j: int|
                    0 <= j < i ==> !((#[trigger] before[j]).0@ == p.0 && before[j].1@ == p.1),
            decreases self.dependencies.len() - i,
        {
            if self.dependencies[i].0.same(package) && self.dependencies[i].1.same(version) {
                proof {
                    assert(recorded_at(before, i as int, p));
                    assert(self.recorded() =~= old(self).recorded().insert(p));
                }
                return;
            }
            i += 1;
        }
        let mut list: Vec<(Names, Version)> = Vec::new();
        std::mem::swap(&mut list, &mut self.dependencies);
        list.push((package.clone(), version.clone()));
        proof {
            let after = list@;
            assert forall|q: Pinned|
                recorded_in(after).contains(q) == recorded_in(before).insert(p).contains(q) by {
                if recorded_in(after).contains(q) {
                    let k = choose|k: int| recorded_at(after, k, q);
                    if k < before.len() {
                        assert(recorded_at(before, k, q));
                    }
                }
                if recorded_in(before).contains(q) {
                    let k = choose|k: int| recorded_at(before, k, q);
                    assert(recorded_at(after, k, q));
                }
                if q == p {
                    assert(recorded_at(after, before.len() as int, p));
                }
            }
            assert(recorded_in(after) =~= recorded_in(before).insert(p));
            assert forall|q: Pinned| #[trigger] recorded_in(after).contains(q) implies answerable(
                old(self).crates(),
                q.0,
                q.1,
            ) by {
                if q != p {
                    assert(old(self).recorded().contains(q));
                }
            }
        }
        self.dependencies = list;
    }

    /// The versions of the crate `name`, in ascending order; `None` if the index has no
    /// such crate.
    pub fn get_crate(&self, name: &String) -> (r: Option<&'c Vec<VersionData>>)
        ensures
            ascending(self.crates().versions(name@)),
            match r {
                Some(list) => list@ == self.crates().versions(name@),
                None => self.crates().versions(name@).len() == 0,
            },
    {
        proof {
            use_type_invariant(self.crates);
            self.crates.versions_ascend(name@);
        }
        self.crates.get(name)
    }

    /// What the index holds of a version of a crate.
    pub fn get_version(&self, name: &String, version: &Version) -> (r: Option<&'c VersionData>)
        ensures
            match r {
                Some(data) => self.crates().lookup(name@, version@) == Some(*data) && data.name@
                    == name@ && data.vers@ == version@,
                None => self.crates().lookup(name@, version@) is None,
            },
    {
        proof {
            use_type_invariant(self.crates);
            self.crates.lookup_is_named(name@, version@);
        }
        self.crates.get_version(name, version)
    }

    /// The versions of the crate `name`, from the highest to the lowest.
    pub fn get_versions(&self, name: &String) -> (r: Vec<&'c Version>)
        ensures
            r@.map_values(|v: &Version| v@) == descending(self.crates().versions(name@)),
            ascending(self.crates().versions(name@)),
    {
        let mut r: Vec<&'c Version> = Vec::new();
        let ghost want = descending(self.crates().versions(name@));
        match self.get_crate(name) {
            None => {
                assert(r@.map_values(|v: &Version| v@) =~= want);
            },
            Some(list) => {
                let mut i: usize = list.len();
                while i > 0
                    invariant
                        i <= list.len(),
                        want == descending(list@),
                        r@.map_values(|v: &Version| v@) == want.take(list.len() - i),
                    decreases i,
                {
                    i -= 1;
                    let ghost before = r@;
                    r.push(&list[i].vers);
                    proof {
                        assert(r@.map_values(|v: &Version| v@) =~= before.map_values(
                            |v: &Version| v@,
                        ).push(list@[i as int].vers@));
                        assert(want[list.len() - i - 1] == list@[i as int].vers@);
                        assert(want.take(list.len() - i) =~= want.take(list.len() - i - 1).push(
                            want[list.len() - i - 1],
                        ));
                    }
                }
                assert(want.take(list.len() as int) =~= want);
            },
        }
        r
    }

    /// The classes of the versions of the crate `name` that meet `req`, those of
    /// higher versions first.
    fn get_classes(&self, name: &String, req: &VersionReq) -> (r: Vec<SemverCompatibility>)
        ensures
            r@ == classes_meeting(descending(self.crates().versions(name@)), req@),
    {
        let versions = self.get_versions(name);
        let ghost all = descending(self.crates().versions(name@));
        let mut r: Vec<SemverCompatibility> = Vec::new();
        let mut i: usize = 0;
        proof {
            assert(classes_meeting(all.take(0), req@) =~= Seq::empty());
        }
        while i < versions.len()
            invariant
                i <= versions.len(),
                versions@.map_values(|v: &Version| v@) == all,
                r@ == classes_meeting(all.take(i as int), req@),
            decreases versions.len() - i,
        {
            let v = versions[i];
            let met: bool = req.matches(v);
            proof {
                assert(all[i as int] == v@);
                lemma_classes_meeting(all, req@, i as int);
            }
            if met {
                r.push(SemverCompatibility::of(v));
            }
            i += 1;
        }
        assert(all.take(i as int) =~= all);
        r
    }

    /// The version that the package gets among those for which `contains` holds: for a
    /// native library the upper end of `bounding_range`, which has to belong to it; for
    /// a requirement the canonical version of the highest class that will do; and
    /// otherwise the highest version.
    pub fn choose_version<F: Fn(&Version) -> bool>(
        &self,
        package: &Names,
        contains: F,
        bounding_range: &Option<(Bound, Bound)>,
    ) -> (r: Result<Option<Version>, SomeError>)
        requires
            forall|v: &Version| call_requires(contains, (v,)),
        ensures
            package@ is Links ==> match *bounding_range {
                Some((_, Bound::Included(v))) => r matches Ok(Some(c)) && c@ == v@,
                _ => r is Err,
            },
            !(package@ is Links) ==> r is Ok,
            !(package@ is Links) ==> (r matches Ok(Some(c)) ==> candidates(
                self.crates(),
                package@,
            ).contains(c@) && call_ensures(contains, (&c,), true)),
            !(package@ is Links) ==> forall|p: spec_fn(VersionView) -> bool| #[trigger]
                decides(contains, p) ==> match r {
                    Ok(Some(c)) => first_with(candidates(self.crates(), package@), p) == Some(c@),
                    _ => first_with(candidates(self.crates(), package@), p) is None,
                },
    {
        match package {
            Names::Links(_) => {
                match bounding_range {
                    Some((_, Bound::Included(v))) => Ok(Some(v.clone())),
                    _ => Err(SomeError),
                }
            },
            Names::Wide(name, req, _, _) => {
                let classes = self.get_classes(name, req);
                let list = canonical_classes(&classes);
                Ok(choose_from(&list, contains))
            },
            Names::WideFeatures(name, req, _, _, _) => {
                let classes = self.get_classes(name, req);
                let list = canonical_classes(&classes);
                Ok(choose_from(&list, contains))
            },
            Names::Bucket(name, _, _) => {
                let list = self.get_listed(name);
                Ok(choose_from(&list, contains))
            },
            Names::BucketFeatures(name, _, _) => {
                let list = self.get_listed(name);
                Ok(choose_from(&list, contains))
            },
        }
    }

    /// The versions of the crate `name` as values of their own, from the highest to the
    /// lowest.
    fn get_listed(&self, name: &String) -> (r: Vec<Version>)
        ensures
            r@.map_values(|v: Version| v@) == descending(self.crates().versions(name@)),
    {
        let versions = self.get_versions(name);
        let ghost all = descending(self.crates().versions(name@));
        let mut r: Vec<Version> = Vec::new();
        let mut i: usize = 0;
        while i < versions.len()
            invariant
                i <= versions.len(),
                versions@.map_values(|v: &Version| v@) == all,
                r@.map_values(|v: Version| v@) == all.take(i as int),
            decreases versions.len() - i,
        {
            let ghost before = r@;
            r.push(versions[i].clone());
            proof {
                assert(all[i as int] == versions@[i as int]@);
                assert(r@.map_values(|v: Version| v@) =~= before.map_values(
                    |v: Version| v@,
                ).push(all[i as int]));
                assert(all.take(i + 1) =~= all.take(i as int).push(all[i as int]));
            }
            i += 1;
        }
        assert(all.take(i as int) =~= all);
        r
    }

    /// How urgent it is to decide on the package, the lowest number first: how many
    /// versions, or for a requirement how many classes, it can have among those for
    /// which `contains` holds. A native library comes last: with one version left,
    /// nothing depends on when it is chosen, and with more it is clearer to choose
    /// among the crates.
    pub fn prioritize<F: Fn(&Version) -> bool>(&self, package: &Names, contains: F) -> (r: usize)
        requires
            forall|v: &Version| call_requires(contains, (v,)),
        ensures
            package@ is Links ==> r == usize::MAX,
            !(package@ is Links) ==> r <= counted(self.crates(), package@).len(),
            !(package@ is Links) ==> forall|p: spec_fn(VersionView) -> bool| #[trigger]
                decides(contains, p) ==> r == counted(self.crates(), package@).filter(p).len(),
    {
        match package {
            Names::Links(_) => usize::MAX,
            Names::Wide(name, req, _, _) => {
                let classes = drop_repeats(&self.get_classes(name, req));
                let list = canonical_classes(&classes);
                count_in(&list, contains)
            },
            Names::WideFeatures(name, req, _, _, _) => {
                let classes = drop_repeats(&self.get_classes(name, req));
                let list = canonical_classes(&classes);
                count_in(&list, contains)
            },
            Names::Bucket(name, _, _) => {
                let list = self.get_listed(name);
                count_in(&list, contains)
            },
            Names::BucketFeatures(name, _, _) => {
                let list = self.get_listed(name);
                count_in(&list, contains)
            },
        }
    }

    /// Whether it can be told what the package demands at the version.
    pub fn can_answer(&self, package: &Names, version: &Version) -> (r: bool)
        ensures
            r == answerable(self.crates(), package@, version@),
    {
        match package {
            Names::Bucket(name, _, _) => self.crates.get_version(name, version).is_some(),
            Names::BucketFeatures(name, _, feat) => match self.crates.get_version(name, version) {
                Some(data) => feature_can_be_read(data, name, feat, version),
                None => false,
            },
            _ => true,
        }
    }

    /// What the package demands at the version. The question is recorded.
    pub fn get_dependencies(&mut self, package: &Names, version: &Version) -> (r: Result<
        Dependencies,
        SomeError,
    >)
        requires
            answerable(old(self).crates(), package@, version@),
        ensures
            final(self).crates() == old(self).crates(),
            final(self).recorded() == old(self).recorded().insert((package@, version@)),
            final(self).calls() == old(self).calls(),
            r matches Ok(deps) && deps@ == dependencies_of(
                old(self).crates(),
                package@,
                version@,
            ),
    {
        self.record(package, version);
        Ok(
            match package {
                Names::Bucket(name, compat, all_features) => {
                    let data = self.crates.get_version(name, version).unwrap();
                    bucket_dependencies(data, name, *compat, *all_features, version)
                },
                Names::BucketFeatures(name, compat, feat) => {
                    let data = self.crates.get_version(name, version).unwrap();
                    feature_dependencies(data, name, *compat, feat, version)
                },
                Names::Wide(name, req, _, _) => wide_dependencies(name, req, version),
                Names::WideFeatures(name, req, parent, parent_compat, feat) =>
                    wide_feature_dependencies(name, req, parent, *parent_compat, feat, version),
                Names::Links(_) => Dependencies::Available(DependencyConstraints::new()),
            },
        )
    }

    /// How often it was asked whether to go on.
    pub fn call_count(&self) -> (r: u64)
        ensures
            r == self.calls(),
    {
        self.call_count
    }

    /// Whether to go on: every [`CALLS_PER_CLOCK_CHECK`] calls the clock is looked at,
    /// and if the time is up then, that is an error.
    pub fn should_cancel(&mut self, time_is_up: bool) -> (r: Result<(), SomeError>)
        requires
            old(self).calls() < u64::MAX,
        ensures
            final(self).crates() == old(self).crates(),
            final(self).recorded() == old(self).recorded(),
            final(self).calls() == old(self).calls() + 1,
            r is Err <==> old(self).calls() % CALLS_PER_CLOCK_CHECK == 0 && time_is_up,
    {
        proof {
            use_type_invariant(&*self);
            assert(self.recorded() == recorded_in(self.dependencies@));
        }
        let calls: u64 = self.call_count;
        self.call_count = calls + 1;
        if calls % CALLS_PER_CLOCK_CHECK == 0 && time_is_up {
            return Err(SomeError);
        }
        Ok(())
    }
}

} // verus!
