//! The outcome of a resolution: a version for each package that takes part.

use vstd::prelude::*;
use crate::name_map::NameMap;
use crate::names::{Names, NamesView};
use crate::version::{Version, VersionView};

verus! {

/// The packages that were selected, each with its version.
#[derive(Debug)]
pub struct SelectedDependencies {
    map: NameMap<Version>,
}

impl View for SelectedDependencies {
    type V = Map<NamesView, VersionView>;

    closed spec fn view(&self) -> Map<NamesView, VersionView> {
        self.map@.map_values(|v: Version| v@)
    }
}

impl SelectedDependencies {
    /// A selection holds finitely many packages.
    pub proof fn is_finite(self)
        ensures
            self@.dom().finite(),
    {
        self.map.is_finite();
        assert(self@.dom() =~= self.map@.dom());
    }

    /// Nothing is selected.
    pub fn new() -> (r: SelectedDependencies)
        ensures
            r@ == Map::<NamesView, VersionView>::empty(),
    {
        let r = SelectedDependencies { map: NameMap::new() };
        assert(r@ =~= Map::<NamesView, VersionView>::empty());
        r
    }

    /// Selects a package at a version.
    pub fn insert(&mut self, n: Names, v: Version)
        ensures
            final(self)@ == old(self)@.insert(n@, v@),
    {
        self.map.insert(n, v);
        assert(self@ =~= old(self)@.insert(n@, v@));
    }

    /// The version of a package; `None` if it is not selected.
    pub fn get(&self, n: &Names) -> (r: Option<&Version>)
        ensures
            match r {
                Some(v) => self@.contains_key(n@) && self@[n@] == v@,
                None => !self@.contains_key(n@),
            },
    {
        self.map.get(n)
    }

    /// How many packages are selected.
    pub fn len(&self) -> (r: usize)
        ensures
            self@.dom().finite(),
            r == self@.len(),
    {
        assert(self@.dom() =~= self.map@.dom());
        self.map.len()
    }

    /// The packages with their versions, as a list, each package once.
    pub fn entries(&self) -> (r: &Vec<(Names, Version)>)
        ensures
            self@.dom().finite(),
            r@.len() == self@.len(),
            forall|i: int|
                0 <= i < r@.len() ==> self@.contains_key((#[trigger] r@[i]).0@)
                    && self@[r@[i].0@] == r@[i].1@,
            forall|n: NamesView| #[trigger]
                self@.contains_key(n) ==> exists|i: int|
                    0 <= i < r@.len() && (#[trigger] r@[i]).0@ == n,
            forall|i: int, j: int|
                #![trigger r@[i], r@[j]]
                0 <= i < j < r@.len() ==> r@[i].0@ != r@[j].0@,
    {
        proof {
            assert(self@.dom() =~= self.map@.dom());
            assert forall|n: NamesView| #[trigger] self@.contains_key(n) implies self.map@.contains_key(
                n,
            ) by {}
        }
        self.map.entries()
    }
}

} // verus!
