//! What a package demands of others: for each of them, the versions that will do.

use vstd::prelude::*;
use crate::name_map::NameMap;
use crate::names::{Names, NamesView};
use crate::version::VersionView;
use crate::version_set::VersionSet;

verus! {

/// The packages that are demanded, each with the versions that will do.
#[derive(Debug)]
pub struct DependencyConstraints {
    map: NameMap<VersionSet>,
}

/// One demand: a package and the versions that will do.
pub type Demand = (NamesView, Set<VersionView>);

/// Adds a demand: to what is demanded of the package already, if anything is.
pub open spec fn add_demand(
    m: Map<NamesView, Set<VersionView>>,
    n: NamesView,
    r: Set<VersionView>,
) -> Map<NamesView, Set<VersionView>> {
    m.insert(
        n,
        if m.contains_key(n) {
            m[n].intersect(r)
        } else {
            r
        },
    )
}

/// The demand at `i` is on the package `n`.
pub open spec fn demands_at(demands: Seq<Demand>, i: int, n: NamesView) -> bool {
    0 <= i < demands.len() && demands[i].0 == n
}

/// All demands together: of each package that occurs, the versions that satisfy every
/// demand on it.
pub open spec fn combined(demands: Seq<Demand>) -> Map<NamesView, Set<VersionView>> {
    Map::new(
        |n: NamesView| exists|i: int| demands_at(demands, i, n),
        |n: NamesView|
            Set::new(
                |v: VersionView|
                    forall|i: int| #[trigger]
                        demands_at(demands, i, n) ==> demands[i].1.contains(v),
            ),
    )
}

/// One more demand is added to those before it.
pub proof fn lemma_combined_push(demands: Seq<Demand>, n: NamesView, r: Set<VersionView>)
    ensures
        combined(demands.push((n, r))) == add_demand(combined(demands), n, r),
{
    let more = demands.push((n, r));
    let last = demands.len() as int;
    let left = combined(more);
    let right = add_demand(combined(demands), n, r);
    assert forall|m: NamesView| #[trigger] left.contains_key(m) == right.contains_key(m) by {
        if left.contains_key(m) {
            let i = choose|i: int| demands_at(more, i, m);
            if i < last {
                assert(demands_at(demands, i, m));
            }
        }
        if right.contains_key(m) {
            if m == n {
                assert(demands_at(more, last, m));
            } else {
                let i = choose|i: int| demands_at(demands, i, m);
                assert(demands_at(more, i, m));
            }
        }
    }
    assert forall|m: NamesView| #[trigger] left.contains_key(m) implies left[m] == right[m] by {
        assert forall|v: VersionView| left[m].contains(v) == right[m].contains(v) by {
            if left[m].contains(v) {
                assert forall|i: int| #[trigger]
                    demands_at(demands, i, m) implies demands[i].1.contains(v) by {
                    assert(demands_at(more, i, m));
                }
                if m == n {
                    assert(demands_at(more, last, m));
                }
            }
            if right[m].contains(v) {
                assert forall|i: int| #[trigger]
                    demands_at(more, i, m) implies more[i].1.contains(v) by {
                    if i < last {
                        assert(demands_at(demands, i, m));
                        assert(combined(demands).contains_key(m));
                    }
                }
            }
        }
        assert(left[m] =~= right[m]);
    }
    assert(left =~= right);
}

/// What a package demands is a finite set of packages.
pub proof fn lemma_combined_finite(demands: Seq<Demand>)
    ensures
        combined(demands).dom().finite(),
{
    let keys = demands.map_values(|d: Demand| d.0);
    assert forall|n: NamesView| #[trigger]
        combined(demands).dom().contains(n) implies keys.to_set().contains(n) by {
        let i = choose|i: int| demands_at(demands, i, n);
        assert(keys[i] == n);
    }
    vstd::seq_lib::seq_to_set_is_finite(keys);
    vstd::set_lib::lemma_set_subset_finite(keys.to_set(), combined(demands).dom());
}

/// The order in which demands are made does not matter.
pub proof fn demands_commute(
    m: Map<NamesView, Set<VersionView>>,
    a: Demand,
    b: Demand,
)
    ensures
        add_demand(add_demand(m, a.0, a.1), b.0, b.1) == add_demand(
            add_demand(m, b.0, b.1),
            a.0,
            a.1,
        ),
{
    let left = add_demand(add_demand(m, a.0, a.1), b.0, b.1);
    let right = add_demand(add_demand(m, b.0, b.1), a.0, a.1);
    assert forall|n: NamesView| #[trigger] left.contains_key(n) implies left[n] == right[n] by {
        assert(left[n] =~= right[n]);
    }
    assert(left =~= right);
}

impl View for DependencyConstraints {
    type V = Map<NamesView, Set<VersionView>>;

    closed spec fn view(&self) -> Map<NamesView, Set<VersionView>> {
        self.map@.map_values(|r: VersionSet| r@)
    }
}

impl DependencyConstraints {
    /// No demands.
    pub fn new() -> (r: DependencyConstraints)
        ensures
            r@ == combined(Seq::empty()),
    {
        let r = DependencyConstraints { map: NameMap::new() };
        assert(r@ =~= combined(Seq::empty()));
        r
    }

    /// How many packages are demanded.
    pub fn len(&self) -> (r: usize)
        ensures
            self@.dom().finite(),
            r == self@.len(),
    {
        assert(self@.dom() =~= self.map@.dom());
        self.map.len()
    }

    /// The demands as a list, each package once.
    pub fn entries(&self) -> (r: &Vec<(Names, VersionSet)>)
        ensures
            forall|i: int|
                0 <= i < r@.len() ==> self@.contains_key((#[trigger] r@[i]).0@)
                    && self@[r@[i].0@] == r@[i].1@,
            forall|n: NamesView| #[trigger]
                self@.contains_key(n) ==> exists|i: int|
                    0 <= i < r@.len() && (#[trigger] r@[i]).0@ == n,
            forall|i: int, j: int|
                #![trigger r@[i], r@[j]]
                0 <= i < j < r@.len() ==> r@[i].0@ != r@[j].0@,
    {
        proof {
            assert forall|n: NamesView| #[trigger] self@.contains_key(n) implies self.map@.contains_key(
                n,
            ) by {}
        }
        self.map.entries()
    }
}

/// Demands that the package `n` has one of the versions `r`, besides what is demanded
/// of it already.
pub fn deps_insert(deps: &mut DependencyConstraints, n: Names, r: VersionSet)
    ensures
        final(deps)@ == add_demand(old(deps)@, n@, r@),
{
    let both: VersionSet = match deps.map.get(&n) {
        Some(before) => before.intersection(&r),
        None => r.clone(),
    };
    deps.map.insert(n, both);
    assert(deps@ =~= add_demand(old(deps)@, n@, r@));
}

/// The answer to what a package demands.
#[derive(Debug)]
pub enum Dependencies {
    /// It cannot be used, for the reason given.
    Unavailable(String),
    /// It demands these packages.
    Available(DependencyConstraints),
}

/// What a package demands.
pub enum DependenciesView {
    Unavailable(Seq<char>),
    Available(Map<NamesView, Set<VersionView>>),
}

impl View for Dependencies {
    type V = DependenciesView;

    open spec fn view(&self) -> DependenciesView {
        match *self {
            Dependencies::Unavailable(reason) => DependenciesView::Unavailable(reason@),
            Dependencies::Available(deps) => DependenciesView::Available(deps@),
        }
    }
}

/// A package is demanded if and only if some demand is on it, and a version of it will do if
/// and only if it will do for every demand on it.
pub proof fn every_demand_counts(demands: Seq<Demand>, n: NamesView, v: VersionView)
    ensures
        combined(demands).contains_key(n) <==> exists|d: Demand| #[trigger]
            demands.contains(d) && d.0 == n,
        combined(demands).contains_key(n) ==> (combined(demands)[n].contains(v) <==> forall|
            d: Demand,
        | #[trigger] demands.contains(d) && d.0 == n ==> d.1.contains(v)),
{
    if combined(demands).contains_key(n) {
        let i = choose|i: int| demands_at(demands, i, n);
        assert(demands.contains(demands[i]));
    }
    if exists|d: Demand| #[trigger] demands.contains(d) && d.0 == n {
        let d = choose|d: Demand| #[trigger] demands.contains(d) && d.0 == n;
        let i = choose|i: int| 0 <= i < demands.len() && demands[i] == d;
        assert(demands_at(demands, i, n));
    }
    if combined(demands).contains_key(n) {
        if combined(demands)[n].contains(v) {
            assert forall|d: Demand| #[trigger] demands.contains(d) && d.0 == n implies d.1.contains(
                v,
            ) by {
                let i = choose|i: int| 0 <= i < demands.len() && demands[i] == d;
                assert(demands_at(demands, i, n));
            }
        }
        if forall|d: Demand| #[trigger] demands.contains(d) && d.0 == n ==> d.1.contains(v) {
            assert forall|i: int| #[trigger]
                demands_at(demands, i, n) implies demands[i].1.contains(v) by {
                assert(demands.contains(demands[i]));
            }
        }
    }
}

/// A further demand on a package leaves of its versions those that will do for it too, all of
/// them if nothing was demanded of it before, and leaves the other packages alone.
pub proof fn a_further_demand_narrows(
    m: Map<NamesView, Set<VersionView>>,
    n: NamesView,
    r: Set<VersionView>,
    other: NamesView,
    v: VersionView,
)
    ensures
        add_demand(m, n, r).contains_key(other) <==> m.contains_key(other) || other == n,
        add_demand(m, n, r)[n].contains(v) <==> r.contains(v) && (m.contains_key(n)
            ==> m[n].contains(v)),
        other != n && m.contains_key(other) ==> add_demand(m, n, r)[other] == m[other],
{
}

} // verus!
