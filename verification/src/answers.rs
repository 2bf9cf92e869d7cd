//! What the index answers, told by the entries of the index alone: which packages are
//! demanded, and which versions of them will do.

use vstd::prelude::*;
use crate::constraints::{
    combined, every_demand_counts, lemma_combined_finite, Demand, DependenciesView,
};
use crate::demands::{
    bucket_demands, counts, dependency_demands, feature_base, feature_of_dependency, link_demands, readable, selected_demands, target, target_versions,
    turned_on, value_demands, values_demands, wide_demands, wide_feature_demands,
};
use crate::hasher::version_hash;
use crate::index_data::{
    a_feature_enables_what_is_listed, feature_values, Crates, Dependency, VersionData,
};
use crate::names::NamesView;
use crate::provider::{answerable, dependencies_of};
use crate::text::{tokens, without_dep_prefix};
use crate::version::{compatibility, requirement_matches, SemverCompatibility, VersionView};
use crate::version_set::only;

verus! {

/// A dependency that one class alone can meet stands for that class of its crate, at the
/// versions that meet the requirement; any other stands for the requirement, as the crate
/// and class state it that depend on it, at any version.
pub proof fn what_a_dependency_stands_for(
    dep: Dependency,
    parent: Seq<char>,
    v: VersionView,
    w: VersionView,
)
    ensures
        match dep.only_compatibility {
            Some(c) => target(dep, parent, v) == NamesView::Bucket(dep.package_name@, c, false),
            None => target(dep, parent, v) == NamesView::Wide(
                dep.package_name@,
                dep.req@,
                parent,
                compatibility(v),
            ),
        },
        target_versions(dep).contains(w) <==> (dep.only_compatibility is Some
            ==> requirement_matches(dep.req@, w)),
{
}

/// A dependency demands what it stands for, its default features if it wants them, and each
/// feature that it names; all at the same versions, and nothing else.
pub proof fn what_a_dependency_demands(
    dep: Dependency,
    parent: Seq<char>,
    v: VersionView,
    d: Demand,
)
    ensures
        dependency_demands(dep, parent, v).contains(d) <==> {
            &&& forall|w: VersionView| #[trigger]
                d.1.contains(w) <==> (dep.only_compatibility is Some ==> requirement_matches(
                    dep.req@,
                    w,
                ))
            &&& match dep.only_compatibility {
                Some(c) => {
                    ||| d.0 == NamesView::Bucket(dep.package_name@, c, false)
                    ||| dep.default_features && d.0 == NamesView::BucketFeatures(
                        dep.package_name@,
                        c,
                        "default"@,
                    )
                    ||| exists|j: int|
                        0 <= j < dep.features@.len() && d.0 == NamesView::BucketFeatures(
                            dep.package_name@,
                            c,
                            (#[trigger] dep.features@[j])@,
                        )
                },
                None => {
                    ||| d.0 == NamesView::Wide(dep.package_name@, dep.req@, parent, compatibility(v))
                    ||| dep.default_features && d.0 == NamesView::WideFeatures(
                        dep.package_name@,
                        dep.req@,
                        parent,
                        compatibility(v),
                        "default"@,
                    )
                    ||| exists|j: int|
                        0 <= j < dep.features@.len() && d.0 == NamesView::WideFeatures(
                            dep.package_name@,
                            dep.req@,
                            parent,
                            compatibility(v),
                            (#[trigger] dep.features@[j])@,
                        )
                },
            }
        },
{
    let t = target(dep, parent, v);
    let r = target_versions(dep);
    let named = dep.features@.map_values(|f: String| (t.featured(f@), r));
    let all = dependency_demands(dep, parent, v);
    let first: int = if dep.default_features {
        2
    } else {
        1
    };
    assert(all[0] == (t, r));
    assert(dep.default_features ==> all[1] == (t.featured("default"@), r));
    assert forall|j: int| 0 <= j < dep.features@.len() implies all[first + j] == (
        t.featured((#[trigger] dep.features@[j])@),
        r,
    ) by {
        assert(all[first + j] == named[j]);
    }
    let versions_fit = forall|w: VersionView| #[trigger]
        d.1.contains(w) <==> (dep.only_compatibility is Some ==> requirement_matches(dep.req@, w));
    assert(versions_fit <==> d.1 == r) by {
        if versions_fit {
            assert(d.1 =~= r);
        }
    }
    let named_fit = exists|j: int|
        0 <= j < dep.features@.len() && d.0 == t.featured((#[trigger] dep.features@[j])@);
    assert(all.contains(d) <==> d.1 == r && (d.0 == t || (dep.default_features && d.0
        == t.featured("default"@)) || named_fit)) by {
        if all.contains(d) {
            let i = choose|i: int| 0 <= i < all.len() && all[i] == d;
            if i >= first {
                assert(d.0 == t.featured(dep.features@[i - first]@));
            }
        }
        if d.1 == r && named_fit {
            let j = choose|j: int|
                0 <= j < dep.features@.len() && d.0 == t.featured((#[trigger] dep.features@[j])@);
            assert(all[first + j] == d);
        }
    }
    match dep.only_compatibility {
        Some(c) => {
            assert(forall|f: Seq<char>|
                #[trigger] t.featured(f) == NamesView::BucketFeatures(dep.package_name@, c, f));
        },
        None => {
            assert(forall|f: Seq<char>|
                #[trigger] t.featured(f) == NamesView::WideFeatures(
                    dep.package_name@,
                    dep.req@,
                    parent,
                    compatibility(v),
                    f,
                ));
        },
    }
}

/// What the selected dependencies of a list demand.
proof fn lemma_selected(
    deps: Seq<Dependency>,
    pred: spec_fn(Dependency) -> bool,
    parent: Seq<char>,
    v: VersionView,
)
    ensures
        forall|d: Demand| #[trigger]
            selected_demands(deps, pred, parent, v).contains(d) ==> exists|i: int|
                0 <= i < deps.len() && pred(#[trigger] deps[i]) && dependency_demands(
                    deps[i],
                    parent,
                    v,
                ).contains(d),
        forall|i: int, d: Demand|
            0 <= i < deps.len() && pred(deps[i]) && #[trigger] dependency_demands(
                deps[i],
                parent,
                v,
            ).contains(d) ==> selected_demands(deps, pred, parent, v).contains(d),
    decreases deps.len(),
{
    if deps.len() > 0 {
        let rest = deps.drop_last();
        let n = rest.len() as int;
        lemma_selected(rest, pred, parent, v);
        let before = selected_demands(rest, pred, parent, v);
        let own = dependency_demands(deps.last(), parent, v);
        let all = selected_demands(deps, pred, parent, v);
        assert forall|d: Demand| #[trigger] all.contains(d) implies exists|i: int|
            0 <= i < deps.len() && pred(#[trigger] deps[i]) && dependency_demands(
                deps[i],
                parent,
                v,
            ).contains(d) by {
            let k = choose|k: int| 0 <= k < all.len() && all[k] == d;
            if k < before.len() {
                assert(before[k] == d);
                assert(before.contains(d));
                let i = choose|i: int|
                    0 <= i < rest.len() && pred(#[trigger] rest[i]) && dependency_demands(
                        rest[i],
                        parent,
                        v,
                    ).contains(d);
                assert(rest[i] == deps[i]);
            } else {
                assert(own[k - before.len()] == d);
                assert(own.contains(d));
                assert(deps[n] == deps.last());
            }
        }
        assert forall|i: int, d: Demand|
            0 <= i < deps.len() && pred(deps[i]) && #[trigger] dependency_demands(
                deps[i],
                parent,
                v,
            ).contains(d) implies all.contains(d) by {
            if i < n {
                assert(rest[i] == deps[i]);
                assert(dependency_demands(rest[i], parent, v).contains(d));
                let k = choose|k: int| 0 <= k < before.len() && before[k] == d;
                assert(all[k] == d);
            } else {
                let k = choose|k: int| 0 <= k < own.len() && own[k] == d;
                assert(all[before.len() + k] == d);
            }
        }
    }
}

/// What a value `x/y` demands.
proof fn lemma_feature_of_dependency(
    deps: Seq<Dependency>,
    x: Seq<char>,
    y: Seq<char>,
    parent: Seq<char>,
    v: VersionView,
)
    ensures
        forall|d: Demand| #[trigger]
            feature_of_dependency(deps, x, y, parent, v).contains(d) ==> exists|i: int|
                0 <= i < deps.len() && !((#[trigger] deps[i]).kind is Dev) && deps[i].name@ == x
                    && d == (target(deps[i], parent, v).featured(y), target_versions(deps[i])),
        forall|i: int|
            0 <= i < deps.len() && !((#[trigger] deps[i]).kind is Dev) && deps[i].name@ == x
                ==> feature_of_dependency(deps, x, y, parent, v).contains(
                (target(deps[i], parent, v).featured(y), target_versions(deps[i])),
            ),
    decreases deps.len(),
{
    if deps.len() > 0 {
        let rest = deps.drop_last();
        let n = rest.len() as int;
        lemma_feature_of_dependency(rest, x, y, parent, v);
        let before = feature_of_dependency(rest, x, y, parent, v);
        let all = feature_of_dependency(deps, x, y, parent, v);
        let last = deps.last();
        let own = (target(last, parent, v).featured(y), target_versions(last));
        assert forall|d: Demand| #[trigger] all.contains(d) implies exists|i: int|
            0 <= i < deps.len() && !((#[trigger] deps[i]).kind is Dev) && deps[i].name@ == x && d
                == (target(deps[i], parent, v).featured(y), target_versions(deps[i])) by {
            let k = choose|k: int| 0 <= k < all.len() && all[k] == d;
            if k < before.len() {
                assert(before[k] == d);
                assert(before.contains(d));
                let i = choose|i: int|
                    0 <= i < rest.len() && !((#[trigger] rest[i]).kind is Dev) && rest[i].name@ == x
                        && d == (target(rest[i], parent, v).featured(y), target_versions(rest[i]));
                assert(rest[i] == deps[i]);
            } else {
                assert(deps[n] == last && d == own);
            }
        }
        assert forall|i: int|
            0 <= i < deps.len() && !((#[trigger] deps[i]).kind is Dev) && deps[i].name@
                == x implies all.contains(
            (target(deps[i], parent, v).featured(y), target_versions(deps[i])),
        ) by {
            if i < n {
                assert(rest[i] == deps[i]);
                let d = (target(rest[i], parent, v).featured(y), target_versions(rest[i]));
                let k = choose|k: int| 0 <= k < before.len() && before[k] == d;
                assert(all[k] == d);
            } else {
                assert(all[before.len() as int] == own);
            }
        }
    }
}

/// What a list of values demands is what each of them does.
proof fn lemma_values(
    vals: Seq<Seq<char>>,
    deps: Seq<Dependency>,
    package: NamesView,
    v: VersionView,
)
    ensures
        forall|d: Demand| #[trigger]
            values_demands(vals, deps, package, v).contains(d) ==> exists|j: int|
                0 <= j < vals.len() && value_demands(#[trigger] vals[j], deps, package, v).contains(
                    d,
                ),
        forall|j: int, d: Demand|
            0 <= j < vals.len() && #[trigger] value_demands(vals[j], deps, package, v).contains(d)
                ==> values_demands(vals, deps, package, v).contains(d),
    decreases vals.len(),
{
    if vals.len() > 0 {
        let rest = vals.drop_last();
        let n = rest.len() as int;
        lemma_values(rest, deps, package, v);
        let before = values_demands(rest, deps, package, v);
        let own = value_demands(vals.last(), deps, package, v);
        let all = values_demands(vals, deps, package, v);
        assert forall|d: Demand| #[trigger] all.contains(d) implies exists|j: int|
            0 <= j < vals.len() && value_demands(#[trigger] vals[j], deps, package, v).contains(
                d,
            ) by {
            let k = choose|k: int| 0 <= k < all.len() && all[k] == d;
            if k < before.len() {
                assert(before[k] == d);
                assert(before.contains(d));
                let j = choose|j: int|
                    0 <= j < rest.len() && value_demands(
                        #[trigger] rest[j],
                        deps,
                        package,
                        v,
                    ).contains(d);
                assert(rest[j] == vals[j]);
            } else {
                assert(own[k - before.len()] == d);
                assert(own.contains(d));
                assert(vals[n] == vals.last());
            }
        }
        assert forall|j: int, d: Demand|
            0 <= j < vals.len() && #[trigger] value_demands(vals[j], deps, package, v).contains(
                d,
            ) implies all.contains(d) by {
            if j < n {
                assert(rest[j] == vals[j]);
                assert(value_demands(rest[j], deps, package, v).contains(d));
                let k = choose|k: int| 0 <= k < before.len() && before[k] == d;
                assert(all[k] == d);
            } else {
                let k = choose|k: int| 0 <= k < own.len() && own[k] == d;
                assert(all[before.len() + k] == d);
            }
        }
    }
}

proof fn lemma_add_contains(a: Seq<Demand>, b: Seq<Demand>, d: Demand)
    ensures
        (a + b).contains(d) <==> a.contains(d) || b.contains(d),
{
    if (a + b).contains(d) {
        let k = choose|k: int| 0 <= k < (a + b).len() && (a + b)[k] == d;
        if k < a.len() {
            assert(a[k] == d);
        } else {
            assert(b[k - a.len()] == d);
        }
    }
    if a.contains(d) {
        let k = choose|k: int| 0 <= k < a.len() && a[k] == d;
        assert((a + b)[k] == d);
    }
    if b.contains(d) {
        let k = choose|k: int| 0 <= k < b.len() && b[k] == d;
        assert((a + b)[a.len() + k] == d);
    }
}

/// When a crate can be used: not if its version is yanked, nor if a dependency that counts
/// for it stands for the crate itself, and otherwise it can. For the crate that is resolved
/// every dependency counts; for any other, each that is neither optional nor for
/// development.
pub proof fn when_a_crate_can_be_used(
    crates: Crates,
    name: Seq<char>,
    c: SemverCompatibility,
    all: bool,
    v: VersionView,
)
    requires
        crates.lookup(name, v) is Some,
    ensures
        ({
            let data = crates.lookup(name, v)->0;
            let package = NamesView::Bucket(name, c, all);
            let answer = dependencies_of(crates, package, v);
            let itself = exists|i: int|
                0 <= i < data.deps@.len() && (all || (!((#[trigger] data.deps@[i]).kind is Dev)
                    && !data.deps@[i].optional)) && target(data.deps@[i], name, v) == package;
            &&& data.yanked ==> answer == DependenciesView::Unavailable("yanked"@)
            &&& !data.yanked && itself ==> answer == DependenciesView::Unavailable("self dep"@)
            &&& !data.yanked && !itself ==> answer is Available
        }),
{
    let data = crates.lookup(name, v)->0;
    let package = NamesView::Bucket(name, c, all);
    assert forall|i: int| 0 <= i < data.deps@.len() implies counts(all)(
        #[trigger] data.deps@[i],
    ) == (all || (!(data.deps@[i].kind is Dev) && !data.deps@[i].optional)) by {}
    assert(package.crate_name() == name);
}

/// What a crate demands: the version of its native library that has its number, and what
/// each dependency demands that counts for it. For the crate that is resolved every
/// dependency counts; for any other, each that is neither optional nor for development.
pub proof fn what_a_crate_demands(
    crates: Crates,
    name: Seq<char>,
    c: SemverCompatibility,
    all: bool,
    v: VersionView,
    m: NamesView,
    w: VersionView,
)
    requires
        crates.lookup(name, v) is Some,
        dependencies_of(crates, NamesView::Bucket(name, c, all), v) is Available,
    ensures
        ({
            let data = crates.lookup(name, v)->0;
            let deps = data.deps@;
            let demanded = dependencies_of(
                crates,
                NamesView::Bucket(name, c, all),
                v,
            )->Available_0;
            let linked = data.links is Some && m == NamesView::Links(data.links->0@);
            &&& demanded.contains_key(m) <==> linked || exists|i: int, d: Demand|
                0 <= i < deps.len() && (all || (!(deps[i].kind is Dev) && !deps[i].optional))
                    && #[trigger] dependency_demands(deps[i], name, v).contains(d) && d.0 == m
            &&& demanded.contains_key(m) ==> (demanded[m].contains(w) <==> (linked ==> w == (
            VersionView {
                major: version_hash(name, v),
                minor: 0,
                patch: 0,
                pre: Seq::empty(),
                build: Seq::empty(),
            })) && forall|i: int, d: Demand|
                0 <= i < deps.len() && (all || (!(deps[i].kind is Dev) && !deps[i].optional))
                    && #[trigger] dependency_demands(deps[i], name, v).contains(d) && d.0 == m
                    ==> d.1.contains(w))
        }),
{
    let data = crates.lookup(name, v)->0;
    let deps = data.deps@;
    let first = link_demands(data, name, v);
    let rest = selected_demands(deps, counts(all), name, v);
    let every = bucket_demands(data, name, all, v);
    every_demand_counts(every, m, w);
    lemma_selected(deps, counts(all), name, v);
    assert forall|d: Demand| #[trigger] every.contains(d) <==> first.contains(d) || rest.contains(
        d,
    ) by {
        lemma_add_contains(first, rest, d);
    }
    let number = VersionView {
        major: version_hash(name, v),
        minor: 0,
        patch: 0,
        pre: Seq::empty(),
        build: Seq::empty(),
    };
    if data.links is Some {
        let own: Demand = (NamesView::Links(data.links->0@), only(number));
        assert(VersionView::plain(version_hash(name, v), 0, 0) =~= number);
        assert(first == seq![own]);
        assert(first[0] == own);
        assert forall|d: Demand| #[trigger] first.contains(d) <==> d == own by {}
        assert(every.contains(own));
    }
    assert forall|i: int| 0 <= i < deps.len() implies counts(all)(#[trigger] deps[i]) == (all || (
    !(deps[i].kind is Dev) && !deps[i].optional)) by {}
    assert forall|i: int, d: Demand|
        0 <= i < deps.len() && (all || (!(deps[i].kind is Dev) && !deps[i].optional))
            && #[trigger] dependency_demands(deps[i], name, v).contains(d) implies every.contains(
        d,
    ) by {
        assert(counts(all)(deps[i]));
        assert(rest.contains(d));
    }
    assert forall|d: Demand| #[trigger] rest.contains(d) implies exists|i: int|
        0 <= i < deps.len() && (all || (!((#[trigger] deps[i]).kind is Dev) && !deps[i].optional))
            && dependency_demands(deps[i], name, v).contains(d) by {
        let i = choose|i: int|
            0 <= i < deps.len() && counts(all)(#[trigger] deps[i]) && dependency_demands(
                deps[i],
                name,
                v,
            ).contains(d);
        assert(counts(all)(deps[i]));
    }
}

/// More than the crate itself is demanded if and only if some other package is.
proof fn lemma_only_itself(base: Seq<Demand>, own: NamesView)
    requires
        base.len() > 0,
        base[0].0 == own,
    ensures
        combined(base).len() > 1 <==> exists|d: Demand| #[trigger] base.contains(d) && d.0 != own,
{
    lemma_combined_finite(base);
    every_demand_counts(base, own, VersionView::plain(0, 0, 0));
    assert(base.contains(base[0]));
    let keys = combined(base).dom();
    assert(keys.contains(own));
    if exists|d: Demand| #[trigger] base.contains(d) && d.0 != own {
        let d = choose|d: Demand| #[trigger] base.contains(d) && d.0 != own;
        every_demand_counts(base, d.0, VersionView::plain(0, 0, 0));
        let both = set![own, d.0];
        assert(both.subset_of(keys));
        vstd::set_lib::lemma_len_subset(both, keys);
        assert(both.len() == 2);
    } else {
        assert forall|n: NamesView| keys.contains(n) implies n == own by {
            every_demand_counts(base, n, VersionView::plain(0, 0, 0));
        }
        assert(keys =~= set![own]);
        assert(keys.len() == 1);
    }
}

proof fn lemma_base(
    deps: Seq<Dependency>,
    data: VersionData,
    name: Seq<char>,
    feat: Seq<char>,
    v: VersionView,
)
    requires
        deps == data.deps@,
    ensures
        ({
            let base = feature_base(data, name, feat, v);
            let own: Demand = (NamesView::Bucket(name, compatibility(v), false), only(v));
            &&& base.len() > 0 && base[0] == own && base.contains(own)
            &&& forall|d: Demand| #[trigger]
                base.contains(d) ==> d == own || exists|i: int|
                    0 <= i < deps.len() && !((#[trigger] deps[i]).kind is Dev) && deps[i].optional
                        && deps[i].name@ == feat && dependency_demands(deps[i], name, v).contains(d)
            &&& forall|i: int, d: Demand|
                0 <= i < deps.len() && !(deps[i].kind is Dev) && deps[i].optional && deps[i].name@
                    == feat && #[trigger] dependency_demands(deps[i], name, v).contains(d)
                    ==> base.contains(d)
        }),
{
    let base = feature_base(data, name, feat, v);
    let own: Demand = (NamesView::Bucket(name, compatibility(v), false), only(v));
    let rest = selected_demands(deps, turned_on(feat), name, v);
    lemma_selected(deps, turned_on(feat), name, v);
    assert(base[0] == own);
    assert forall|d: Demand| #[trigger] base.contains(d) <==> d == own || rest.contains(d) by {
        lemma_add_contains(seq![own], rest, d);
        assert(seq![own][0] == own);
    }
    assert forall|i: int| 0 <= i < deps.len() implies turned_on(feat)(#[trigger] deps[i]) == (!(
    deps[i].kind is Dev) && deps[i].optional && deps[i].name@ == feat) by {}
    assert forall|d: Demand| #[trigger] base.contains(d) && d != own implies exists|i: int|
        0 <= i < deps.len() && !((#[trigger] deps[i]).kind is Dev) && deps[i].optional
            && deps[i].name@ == feat && dependency_demands(deps[i], name, v).contains(d) by {
        let i = choose|i: int|
            0 <= i < deps.len() && turned_on(feat)(#[trigger] deps[i]) && dependency_demands(
                deps[i],
                name,
                v,
            ).contains(d);
        assert(turned_on(feat)(deps[i]));
    }
    assert forall|i: int, d: Demand|
        0 <= i < deps.len() && !(deps[i].kind is Dev) && deps[i].optional && deps[i].name@ == feat
            && #[trigger] dependency_demands(deps[i], name, v).contains(d) implies base.contains(
        d,
    ) by {
        assert(turned_on(feat)(deps[i]));
        assert(rest.contains(d));
    }
}

/// When a feature can be used: not if the version is yanked; but otherwise if it turns on an
/// optional dependency that demands more than the crate itself, if the version lists it, or
/// if it is `default`.
pub proof fn when_a_feature_can_be_used(
    crates: Crates,
    name: Seq<char>,
    c: SemverCompatibility,
    feat: Seq<char>,
    v: VersionView,
)
    requires
        crates.lookup(name, v) is Some,
    ensures
        ({
            let data = crates.lookup(name, v)->0;
            let deps = data.deps@;
            let answer = dependencies_of(crates, NamesView::BucketFeatures(name, c, feat), v);
            let turns_on = exists|i: int, d: Demand|
                0 <= i < deps.len() && !(deps[i].kind is Dev) && deps[i].optional && deps[i].name@
                    == feat && #[trigger] dependency_demands(deps[i], name, v).contains(d) && d.0
                    != NamesView::Bucket(name, compatibility(v), false);
            let listed = exists|i: int|
                0 <= i < data.features@.len() && (#[trigger] data.features@[i]).0@ == feat;
            &&& data.yanked ==> answer == DependenciesView::Unavailable("yanked"@)
            &&& !data.yanked && (turns_on || listed || feat == "default"@) ==> answer is Available
            &&& !data.yanked && !(turns_on || listed || feat == "default"@) ==> answer
                == DependenciesView::Unavailable("no matching feat"@)
        }),
{
    let data = crates.lookup(name, v)->0;
    let own = NamesView::Bucket(name, compatibility(v), false);
    let base = feature_base(data, name, feat, v);
    lemma_base(data.deps@, data, name, feat, v);
    lemma_only_itself(base, own);
    a_feature_enables_what_is_listed(data.features@, feat);
}

/// What a feature demands: its crate, at the same version; what the optional dependencies of
/// its name demand; and, where those demand nothing but the crate itself, the values that the
/// version lists for it (`vals`). A listed value without a slash is another feature of the crate, at the same
/// version, whether `dep:` stands before it or not; a value `x/y` or `x?/y` is the feature
/// `y` of each dependency known as `x` that is not for development.
pub proof fn what_a_feature_demands(
    crates: Crates,
    name: Seq<char>,
    c: SemverCompatibility,
    feat: Seq<char>,
    v: VersionView,
    vals: Seq<Seq<char>>,
    m: NamesView,
    w: VersionView,
)
    requires
        crates.lookup(name, v) is Some,
        dependencies_of(crates, NamesView::BucketFeatures(name, c, feat), v) is Available,
        ({
            let data = crates.lookup(name, v)->0;
            let turns_on = exists|i: int, d: Demand|
                0 <= i < data.deps@.len() && !(data.deps@[i].kind is Dev) && data.deps@[i].optional
                    && data.deps@[i].name@ == feat && #[trigger] dependency_demands(
                    data.deps@[i],
                    name,
                    v,
                ).contains(d) && d.0 != NamesView::Bucket(name, compatibility(v), false);
            match feature_values(data.features@, feat) {
                Some(listed) if !turns_on => vals == listed,
                _ => vals.len() == 0,
            }
        }),
    ensures
        ({
            let data = crates.lookup(name, v)->0;
            let deps = data.deps@;
            let demanded = dependencies_of(
                crates,
                NamesView::BucketFeatures(name, c, feat),
                v,
            )->Available_0;
            let own = NamesView::Bucket(name, compatibility(v), false);
            &&& demanded.contains_key(m) <==> {
                ||| m == own
                ||| exists|i: int, d: Demand|
                    0 <= i < deps.len() && !(deps[i].kind is Dev) && deps[i].optional
                        && deps[i].name@ == feat && #[trigger] dependency_demands(
                        deps[i],
                        name,
                        v,
                    ).contains(d) && d.0 == m
                ||| exists|j: int|
                    0 <= j < vals.len() && !(#[trigger] vals[j]).contains('/') && m
                        == NamesView::BucketFeatures(name, c, without_dep_prefix(vals[j]))
                ||| exists|j: int, i: int|
                    #![trigger vals[j], deps[i]]
                    0 <= j < vals.len() && vals[j].contains('/') && 0 <= i < deps.len() && !(
                    deps[i].kind is Dev) && deps[i].name@ == tokens(
                        without_dep_prefix(vals[j]),
                    )[0] && m == target(deps[i], name, v).featured(
                        tokens(without_dep_prefix(vals[j]))[1],
                    )
            }
            &&& demanded.contains_key(m) ==> (demanded[m].contains(w) <==> {
                &&& m == own ==> w == v
                &&& forall|i: int, d: Demand|
                    0 <= i < deps.len() && !(deps[i].kind is Dev) && deps[i].optional
                        && deps[i].name@ == feat && #[trigger] dependency_demands(
                        deps[i],
                        name,
                        v,
                    ).contains(d) && d.0 == m ==> d.1.contains(w)
                &&& forall|j: int|
                    0 <= j < vals.len() && !(#[trigger] vals[j]).contains('/') && m
                        == NamesView::BucketFeatures(name, c, without_dep_prefix(vals[j])) ==> w
                        == v
                &&& forall|j: int, i: int|
                    #![trigger vals[j], deps[i]]
                    0 <= j < vals.len() && vals[j].contains('/') && 0 <= i < deps.len() && !(
                    deps[i].kind is Dev) && deps[i].name@ == tokens(
                        without_dep_prefix(vals[j]),
                    )[0] && m == target(deps[i], name, v).featured(
                        tokens(without_dep_prefix(vals[j]))[1],
                    ) ==> target_versions(deps[i]).contains(w)
            })
        }),
{
    let data = crates.lookup(name, v)->0;
    let deps = data.deps@;
    let package = NamesView::BucketFeatures(name, c, feat);
    let own = NamesView::Bucket(name, compatibility(v), false);
    let base = feature_base(data, name, feat, v);
    lemma_base(deps, data, name, feat, v);
    lemma_only_itself(base, own);
    let turns_on = exists|i: int, d: Demand|
        0 <= i < deps.len() && !(deps[i].kind is Dev) && deps[i].optional && deps[i].name@ == feat
            && #[trigger] dependency_demands(deps[i], name, v).contains(d) && d.0 != own;
    assert(turns_on <==> combined(base).len() > 1);
    let more = values_demands(vals, deps, package, v);
    let every = base + more;
    assert(dependencies_of(crates, package, v) == DependenciesView::Available(combined(every))) by {
        if vals.len() == 0 {
            assert(every =~= base);
        }
    }
    every_demand_counts(every, m, w);
    lemma_values(vals, deps, package, v);
    assert forall|d: Demand| #[trigger] every.contains(d) <==> base.contains(d) || more.contains(
        d,
    ) by {
        lemma_add_contains(base, more, d);
    }
    assert forall|j: int| 0 <= j < vals.len() && !(#[trigger] vals[j]).contains('/') implies forall|
        d: Demand,
    |
        #[trigger] value_demands(vals[j], deps, package, v).contains(d) <==> d == (
            NamesView::BucketFeatures(name, c, without_dep_prefix(vals[j])),
            only(v),
        ) by {
        let one = value_demands(vals[j], deps, package, v);
        assert(one[0] == (
            NamesView::BucketFeatures(name, c, without_dep_prefix(vals[j])),
            only(v),
        ));
        assert(one.len() == 1);
    }
    assert forall|j: int| 0 <= j < vals.len() && (#[trigger] vals[j]).contains('/') implies ({
        let parts = tokens(without_dep_prefix(vals[j]));
        &&& forall|d: Demand| #[trigger]
            value_demands(vals[j], deps, package, v).contains(d) ==> exists|i: int|
                0 <= i < deps.len() && !((#[trigger] deps[i]).kind is Dev) && deps[i].name@
                    == parts[0] && d == (
                    target(deps[i], name, v).featured(parts[1]),
                    target_versions(deps[i]),
                )
        &&& forall|i: int|
            0 <= i < deps.len() && !((#[trigger] deps[i]).kind is Dev) && deps[i].name@ == parts[0]
                ==> value_demands(vals[j], deps, package, v).contains(
                (target(deps[i], name, v).featured(parts[1]), target_versions(deps[i])),
            )
    }) by {
        let parts = tokens(without_dep_prefix(vals[j]));
        lemma_feature_of_dependency(deps, parts[0], parts[1], name, v);
    }
    assert(every.contains((own, only(v))));
    assert forall|j: int|
        0 <= j < vals.len() && !(#[trigger] vals[j]).contains('/') implies every.contains(
        (NamesView::BucketFeatures(name, c, without_dep_prefix(vals[j])), only(v)),
    ) by {
        let d = (NamesView::BucketFeatures(name, c, without_dep_prefix(vals[j])), only(v));
        assert(value_demands(vals[j], deps, package, v).contains(d));
        assert(more.contains(d));
    }
    assert forall|j: int, i: int|
        #![trigger vals[j], deps[i]]
        0 <= j < vals.len() && vals[j].contains('/') && 0 <= i < deps.len() && !(deps[i].kind is Dev)
            && deps[i].name@ == tokens(without_dep_prefix(vals[j]))[0] implies every.contains(
        (
            target(deps[i], name, v).featured(tokens(without_dep_prefix(vals[j]))[1]),
            target_versions(deps[i]),
        ),
    ) by {
        let d = (
            target(deps[i], name, v).featured(tokens(without_dep_prefix(vals[j]))[1]),
            target_versions(deps[i]),
        );
        assert(value_demands(vals[j], deps, package, v).contains(d));
        assert(more.contains(d));
    }
    assert forall|i: int, d: Demand|
        0 <= i < deps.len() && !(deps[i].kind is Dev) && deps[i].optional && deps[i].name@ == feat
            && #[trigger] dependency_demands(deps[i], name, v).contains(d) implies every.contains(
        d,
    ) by {
        assert(base.contains(d));
    }
    assert forall|d: Demand| #[trigger] every.contains(d) implies {
        ||| d == (own, only(v))
        ||| exists|i: int|
            0 <= i < deps.len() && !((#[trigger] deps[i]).kind is Dev) && deps[i].optional
                && deps[i].name@ == feat && dependency_demands(deps[i], name, v).contains(d)
        ||| exists|j: int|
            0 <= j < vals.len() && !(#[trigger] vals[j]).contains('/') && d == (
                NamesView::BucketFeatures(name, c, without_dep_prefix(vals[j])),
                only(v),
            )
        ||| exists|j: int, i: int|
            #![trigger vals[j], deps[i]]
            0 <= j < vals.len() && vals[j].contains('/') && 0 <= i < deps.len() && !(
            deps[i].kind is Dev) && deps[i].name@ == tokens(without_dep_prefix(vals[j]))[0] && d
                == (
                target(deps[i], name, v).featured(tokens(without_dep_prefix(vals[j]))[1]),
                target_versions(deps[i]),
            )
    } by {
        if !base.contains(d) {
            assert(more.contains(d));
            let j = choose|j: int|
                0 <= j < vals.len() && value_demands(#[trigger] vals[j], deps, package, v).contains(
                    d,
                );
            if vals[j].contains('/') {
                let parts = tokens(without_dep_prefix(vals[j]));
                let i = choose|i: int|
                    0 <= i < deps.len() && !((#[trigger] deps[i]).kind is Dev) && deps[i].name@
                        == parts[0] && d == (
                        target(deps[i], name, v).featured(parts[1]),
                        target_versions(deps[i]),
                    );
                assert(deps[i].name@ == parts[0]);
            }
        }
    }
    let demanded = combined(every);
    let from_own = exists|i: int, d: Demand|
        0 <= i < deps.len() && !(deps[i].kind is Dev) && deps[i].optional && deps[i].name@ == feat
            && #[trigger] dependency_demands(deps[i], name, v).contains(d) && d.0 == m;
    let from_feature = exists|j: int|
        0 <= j < vals.len() && !(#[trigger] vals[j]).contains('/') && m
            == NamesView::BucketFeatures(name, c, without_dep_prefix(vals[j]));
    let from_dependency = exists|j: int, i: int|
        #![trigger vals[j], deps[i]]
        0 <= j < vals.len() && vals[j].contains('/') && 0 <= i < deps.len() && !(deps[i].kind is Dev)
            && deps[i].name@ == tokens(without_dep_prefix(vals[j]))[0] && m == target(
            deps[i],
            name,
            v,
        ).featured(tokens(without_dep_prefix(vals[j]))[1]);
    if demanded.contains_key(m) {
        let e = choose|e: Demand| #[trigger] every.contains(e) && e.0 == m;
        if e == (own, only(v)) {
            assert(m == own);
        } else if exists|i: int|
            0 <= i < deps.len() && !((#[trigger] deps[i]).kind is Dev) && deps[i].optional
                && deps[i].name@ == feat && dependency_demands(deps[i], name, v).contains(e) {
            let i = choose|i: int|
                0 <= i < deps.len() && !((#[trigger] deps[i]).kind is Dev) && deps[i].optional
                    && deps[i].name@ == feat && dependency_demands(deps[i], name, v).contains(e);
            assert(dependency_demands(deps[i], name, v).contains(e));
            assert(from_own);
        } else {
            assert(from_feature || from_dependency);
        }
    }
    if from_own {
        let (i, d) = choose|i: int, d: Demand|
            0 <= i < deps.len() && !(deps[i].kind is Dev) && deps[i].optional && deps[i].name@ == feat
                && #[trigger] dependency_demands(deps[i], name, v).contains(d) && d.0 == m;
        assert(every.contains(d));
    }
    if from_feature {
        let j = choose|j: int|
            0 <= j < vals.len() && !(#[trigger] vals[j]).contains('/') && m
                == NamesView::BucketFeatures(name, c, without_dep_prefix(vals[j]));
        assert(every.contains((m, only(v))));
    }
    if from_dependency {
        let (j, i) = choose|j: int, i: int|
            #![trigger vals[j], deps[i]]
            0 <= j < vals.len() && vals[j].contains('/') && 0 <= i < deps.len() && !(
            deps[i].kind is Dev) && deps[i].name@ == tokens(without_dep_prefix(vals[j]))[0] && m
                == target(deps[i], name, v).featured(tokens(without_dep_prefix(vals[j]))[1]);
        assert(every.contains((m, target_versions(deps[i]))));
    }
    assert(demanded.contains_key(m) <==> m == own || from_own || from_feature || from_dependency);
    if demanded.contains_key(m) {
        let fits = {
            &&& m == own ==> w == v
            &&& forall|i: int, d: Demand|
                0 <= i < deps.len() && !(deps[i].kind is Dev) && deps[i].optional && deps[i].name@
                    == feat && #[trigger] dependency_demands(deps[i], name, v).contains(d) && d.0
                    == m ==> d.1.contains(w)
            &&& forall|j: int|
                0 <= j < vals.len() && !(#[trigger] vals[j]).contains('/') && m
                    == NamesView::BucketFeatures(name, c, without_dep_prefix(vals[j])) ==> w == v
            &&& forall|j: int, i: int|
                #![trigger vals[j], deps[i]]
                0 <= j < vals.len() && vals[j].contains('/') && 0 <= i < deps.len() && !(
                deps[i].kind is Dev) && deps[i].name@ == tokens(without_dep_prefix(vals[j]))[0] && m
                    == target(deps[i], name, v).featured(
                    tokens(without_dep_prefix(vals[j]))[1],
                ) ==> target_versions(deps[i]).contains(w)
        };
        if fits {
            assert forall|d: Demand| #[trigger] every.contains(d) && d.0 == m implies d.1.contains(
                w,
            ) by {}
            assert(demanded[m].contains(w));
        }
        if demanded[m].contains(w) {
            assert(m == own ==> w == v);
            assert forall|j: int|
                0 <= j < vals.len() && !(#[trigger] vals[j]).contains('/') && m
                    == NamesView::BucketFeatures(name, c, without_dep_prefix(vals[j])) implies w
                == v by {
                assert(only(v).contains(w));
            }
            assert(fits);
        }
    }
}

/// What the packages demand that stand for no version in the index: a requirement, at the
/// version that stands for a class, the versions of that class that meet it; a feature under
/// a requirement that requirement, at the same version, and the feature of the class; and a
/// native library nothing.
pub proof fn what_a_requirement_demands(
    crates: Crates,
    name: Seq<char>,
    req: Seq<char>,
    parent: Seq<char>,
    c: SemverCompatibility,
    feat: Seq<char>,
    v: VersionView,
    m: NamesView,
    w: VersionView,
)
    ensures
        ({
            let wide = NamesView::Wide(name, req, parent, c);
            let of_class = NamesView::Bucket(name, compatibility(v), false);
            let feature = NamesView::BucketFeatures(name, compatibility(v), feat);
            let first = dependencies_of(crates, wide, v);
            let second = dependencies_of(
                crates,
                NamesView::WideFeatures(name, req, parent, c, feat),
                v,
            );
            let third = dependencies_of(crates, NamesView::Links(name), v);
            let will_do = requirement_matches(req, w) && compatibility(w) == compatibility(v);
            &&& first matches DependenciesView::Available(deps) && {
                &&& deps.contains_key(m) <==> m == of_class
                &&& deps[of_class].contains(w) <==> will_do
            }
            &&& second matches DependenciesView::Available(deps) && {
                &&& deps.contains_key(m) <==> m == wide || m == feature
                &&& deps[wide].contains(w) <==> w == v
                &&& deps[feature].contains(w) <==> will_do
            }
            &&& third matches DependenciesView::Available(deps) && !deps.contains_key(m)
        }),
{
    let wide = NamesView::Wide(name, req, parent, c);
    let of_class = NamesView::Bucket(name, compatibility(v), false);
    let feature = NamesView::BucketFeatures(name, compatibility(v), feat);
    let first = wide_demands(name, req, v);
    let second = wide_feature_demands(name, req, parent, c, feat, v);
    assert(first[0].0 == of_class);
    assert(second[0].0 == wide && second[1].0 == feature);
    assert(first.contains(first[0]) && second.contains(second[0]) && second.contains(second[1]));
    every_demand_counts(first, m, w);
    every_demand_counts(first, of_class, w);
    every_demand_counts(second, m, w);
    every_demand_counts(second, wide, w);
    every_demand_counts(second, feature, w);
    every_demand_counts(Seq::empty(), m, w);
    assert forall|d: Demand| #[trigger] first.contains(d) implies d == first[0] by {}
    assert forall|d: Demand| #[trigger] second.contains(d) implies d == second[0] || d
        == second[1] by {}
}

/// Of which packages it can be told what they demand: of a crate if the index holds its
/// version; of a feature if moreover the version is yanked, the feature turns on an optional
/// dependency that demands more than the crate itself, or each value that is listed for it
/// and has a slash in it is made of two pieces; and of all others.
pub proof fn what_can_be_told(
    crates: Crates,
    name: Seq<char>,
    c: SemverCompatibility,
    all: bool,
    feat: Seq<char>,
    v: VersionView,
    other: NamesView,
)
    ensures
        answerable(crates, NamesView::Bucket(name, c, all), v) <==> crates.lookup(name, v) is Some,
        !(other is Bucket) && !(other is BucketFeatures) ==> answerable(crates, other, v),
        ({
            let data = crates.lookup(name, v)->0;
            let deps = data.deps@;
            let turns_on = exists|i: int, d: Demand|
                0 <= i < deps.len() && !(deps[i].kind is Dev) && deps[i].optional && deps[i].name@
                    == feat && #[trigger] dependency_demands(deps[i], name, v).contains(d) && d.0
                    != NamesView::Bucket(name, compatibility(v), false);
            answerable(crates, NamesView::BucketFeatures(name, c, feat), v) <==> {
                &&& crates.lookup(name, v) is Some
                &&& {
                    ||| data.yanked
                    ||| turns_on
                    ||| (feature_values(data.features@, feat) matches Some(vals) ==> forall|j: int|
                        0 <= j < vals.len() && (#[trigger] vals[j]).contains('/') ==> tokens(
                            without_dep_prefix(vals[j]),
                        ).len() == 2)
                }
            }
        }),
{
    let data = crates.lookup(name, v)->0;
    let own = NamesView::Bucket(name, compatibility(v), false);
    lemma_base(data.deps@, data, name, feat, v);
    lemma_only_itself(feature_base(data, name, feat, v), own);
    if let Some(vals) = feature_values(data.features@, feat) {
        assert forall|j: int| 0 <= j < vals.len() implies readable(#[trigger] vals[j]) == (
        vals[j].contains('/') ==> tokens(without_dep_prefix(vals[j])).len() == 2) by {}
    }
}

} // verus!
