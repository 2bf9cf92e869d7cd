//! What holds of the whole: a solution of the demands is a selection that can be built.

use std::collections::hash_map::DefaultHasher;
use vstd::prelude::*;
use vstd::std_specs::hash::DefaultHasherAdditionalSpecFns;
use crate::check::{
    buckets_agree, checkable, consistent, crate_holds, crate_of_feature, features_agree, fulfilled,
    is_dependency, link_of, links_differ, needed, selected_data, will_do,
};
use crate::choice::{candidates, class_will_do, counted, first_with};
use crate::constraints::{combined, demands_at, lemma_combined_finite, Demand, DependenciesView};
use crate::demands::{
    bucket_demands, counts, dependency_demands, feature_base, feature_of_dependency, link_demands,
    selected_demands, target, target_versions, turned_on, value_demands, values_demands,
    wide_demands, wide_feature_demands,
};
use crate::hasher::{equal_numbers_are_collisions, version_hash, version_key, version_key_is_unique};
use crate::index_data::{feature_values, Crates, Dependency};
use crate::names::NamesView;
use crate::provider::{answerable, dependencies_of, Index, Pinned};
use crate::report::crates_asked;
use crate::version::{compatibility, requirement_matches, SemverCompatibility, VersionView};
use crate::version_set::only;
use crate::walk::{broken, chain, leads_to, usable};

verus! {

/// The selection satisfies the demands: each package is selected, at a version that will
/// do.
pub open spec fn satisfies(sel: Map<NamesView, VersionView>, demands: Seq<Demand>) -> bool {
    forall|i: int|
        0 <= i < demands.len() ==> sel.contains_key((#[trigger] demands[i]).0)
            && demands[i].1.contains(sel[demands[i].0])
}

/// A path of packages from the root, each of which demands the next.
pub open spec fn path_from_root(
    crates: Crates,
    sel: Map<NamesView, VersionView>,
    root: NamesView,
    path: Seq<NamesView>,
) -> bool {
    &&& path.len() >= 1
    &&& path[0] == root
    &&& forall|i: int|
        0 <= i < path.len() - 1 ==> leads_to(crates, sel, #[trigger] path[i], path[i + 1])
}

/// The selection is a solution for the root: the root is selected, under the class of its
/// version; the index can tell what each selected package demands, each can be used, and
/// each demand is satisfied; and nothing is selected that is not demanded, from the root
/// on.
pub open spec fn is_solution(
    crates: Crates,
    sel: Map<NamesView, VersionView>,
    root: NamesView,
) -> bool {
    &&& sel.contains_key(root)
    &&& root.is_root()
    &&& root->Bucket_1 == compatibility(sel[root])
    &&& forall|n: NamesView| #[trigger]
        sel.contains_key(n) ==> answerable(crates, n, sel[n]) && usable(crates, sel, n)
    &&& forall|n: NamesView, m: NamesView| #[trigger]
        leads_to(crates, sel, n, m) ==> sel.contains_key(m) && dependencies_of(
            crates,
            n,
            sel[n],
        )->Available_0[m].contains(sel[m])
    &&& forall|n: NamesView| #[trigger]
        sel.contains_key(n) ==> exists|path: Seq<NamesView>| #[trigger]
            path_from_root(crates, sel, root, path) && path.last() == n
}

/// The class that a dependency gives as the only one holds every version that meets its
/// requirement.
pub open spec fn class_is_right(dep: Dependency) -> bool {
    dep.only_compatibility matches Some(c) ==> forall|v: VersionView| #[trigger]
        requirement_matches(dep.req@, v) ==> compatibility(v) == c
}

/// So it is for all dependencies of the index.
pub open spec fn classes_are_right(crates: Crates) -> bool {
    forall|name: Seq<char>, v: VersionView, i: int|
        #![trigger crates.lookup(name, v)->0.deps@[i]]
        crates.lookup(name, v) is Some && 0 <= i < crates.lookup(name, v)->0.deps@.len()
            ==> class_is_right(crates.lookup(name, v)->0.deps@[i])
}

/// No two selected crates that link the same native library have the same number.
pub open spec fn numbers_differ(crates: Crates, sel: Map<NamesView, VersionView>) -> bool {
    forall|a: NamesView, b: NamesView|
        #![trigger is_dependency(sel, a), is_dependency(sel, b)]
        is_dependency(sel, a) && is_dependency(sel, b) && link_of(crates, sel, a) is Some
            && link_of(crates, sel, a) == link_of(crates, sel, b) && version_hash(
            a.crate_name(),
            sel[a],
        ) == version_hash(b.crate_name(), sel[b]) ==> a.crate_name() == b.crate_name() && sel[a]
            == sel[b]
}

/// The class under which a crate or a feature is demanded is that of every version that
/// will do.
spec fn demand_fits(d: Demand) -> bool {
    match d.0 {
        NamesView::Bucket(_, c, _) => forall|v: VersionView| #[trigger]
            d.1.contains(v) ==> compatibility(v) == c,
        NamesView::BucketFeatures(_, c, _) => forall|v: VersionView| #[trigger]
            d.1.contains(v) ==> compatibility(v) == c,
        _ => true,
    }
}

spec fn demands_fit(demands: Seq<Demand>) -> bool {
    forall|i: int| 0 <= i < demands.len() ==> demand_fits(#[trigger] demands[i])
}

proof fn lemma_demands_fit_add(a: Seq<Demand>, b: Seq<Demand>)
    requires
        demands_fit(a),
        demands_fit(b),
    ensures
        demands_fit(a + b),
{
    assert forall|i: int| 0 <= i < (a + b).len() implies demand_fits(#[trigger] (a + b)[i]) by {
        if i < a.len() {
            assert((a + b)[i] == a[i]);
        } else {
            assert((a + b)[i] == b[i - a.len()]);
        }
    }
}

proof fn lemma_dependency_demands_fit(dep: Dependency, parent: Seq<char>, v: VersionView)
    requires
        class_is_right(dep),
    ensures
        demands_fit(dependency_demands(dep, parent, v)),
        forall|f: Seq<char>|
            demand_fits(
                (#[trigger] target(dep, parent, v).featured(f), target_versions(dep)),
            ),
{
    let t = target(dep, parent, v);
    let r = target_versions(dep);
    let named = dep.features@.map_values(|f: String| (t.featured(f@), r));
    assert forall|i: int| 0 <= i < named.len() implies demand_fits(#[trigger] named[i]) by {}
    let base = seq![(t, r)];
    assert(demands_fit(base));
    assert(demands_fit(base.push((t.featured("default"@), r))));
    lemma_demands_fit_add(
        if dep.default_features {
            base.push((t.featured("default"@), r))
        } else {
            base
        },
        named,
    );
}

spec fn all_right(deps: Seq<Dependency>) -> bool {
    forall|i: int| 0 <= i < deps.len() ==> class_is_right(#[trigger] deps[i])
}

proof fn lemma_selected_demands_fit(
    deps: Seq<Dependency>,
    pred: spec_fn(Dependency) -> bool,
    parent: Seq<char>,
    v: VersionView,
)
    requires
        all_right(deps),
    ensures
        demands_fit(selected_demands(deps, pred, parent, v)),
    decreases deps.len(),
{
    if deps.len() > 0 {
        let rest = deps.drop_last();
        assert forall|i: int| 0 <= i < rest.len() implies class_is_right(#[trigger] rest[i]) by {
            assert(rest[i] == deps[i]);
        }
        lemma_selected_demands_fit(rest, pred, parent, v);
        assert(class_is_right(deps[deps.len() - 1]));
        lemma_dependency_demands_fit(deps.last(), parent, v);
        lemma_demands_fit_add(
            selected_demands(rest, pred, parent, v),
            dependency_demands(deps.last(), parent, v),
        );
    }
}

proof fn lemma_feature_of_dependency_fits(
    deps: Seq<Dependency>,
    dep_name: Seq<char>,
    feat: Seq<char>,
    parent: Seq<char>,
    v: VersionView,
)
    requires
        all_right(deps),
    ensures
        demands_fit(feature_of_dependency(deps, dep_name, feat, parent, v)),
    decreases deps.len(),
{
    if deps.len() > 0 {
        let rest = deps.drop_last();
        assert forall|i: int| 0 <= i < rest.len() implies class_is_right(#[trigger] rest[i]) by {
            assert(rest[i] == deps[i]);
        }
        lemma_feature_of_dependency_fits(rest, dep_name, feat, parent, v);
        assert(class_is_right(deps[deps.len() - 1]));
        lemma_dependency_demands_fit(deps.last(), parent, v);
    }
}

proof fn lemma_values_demands_fit(
    vals: Seq<Seq<char>>,
    deps: Seq<Dependency>,
    package: NamesView,
    v: VersionView,
)
    requires
        all_right(deps),
        package is BucketFeatures,
        package->BucketFeatures_1 == compatibility(v),
    ensures
        demands_fit(values_demands(vals, deps, package, v)),
    decreases vals.len(),
{
    if vals.len() > 0 {
        lemma_values_demands_fit(vals.drop_last(), deps, package, v);
        let val = vals.last();
        if val.contains('/') {
            let parts = crate::text::tokens(crate::text::without_dep_prefix(val));
            lemma_feature_of_dependency_fits(deps, parts[0], parts[1], package.crate_name(), v);
        }
        assert(demands_fit(value_demands(val, deps, package, v)));
        lemma_demands_fit_add(
            values_demands(vals.drop_last(), deps, package, v),
            value_demands(val, deps, package, v),
        );
    }
}

/// What a package demands at a version, where it can be used.
spec fn demands_of(crates: Crates, n: NamesView, v: VersionView) -> Seq<Demand> {
    match n {
        NamesView::Bucket(name, _, all) => bucket_demands(crates.lookup(name, v)->0, name, all, v),
        NamesView::BucketFeatures(name, _, feat) => {
            let data = crates.lookup(name, v)->0;
            let base = feature_base(data, name, feat, v);
            if combined(base).len() > 1 {
                base
            } else {
                match feature_values(data.features@, feat) {
                    Some(vals) => base + values_demands(vals, data.deps@, n, v),
                    None => base,
                }
            }
        },
        NamesView::Wide(name, req, _, _) => wide_demands(name, req, v),
        NamesView::WideFeatures(name, req, parent, parent_compat, feat) => wide_feature_demands(
            name,
            req,
            parent,
            parent_compat,
            feat,
            v,
        ),
        NamesView::Links(_) => Seq::empty(),
    }
}

proof fn lemma_demands_of(crates: Crates, n: NamesView, v: VersionView)
    ensures
        dependencies_of(crates, n, v) is Available ==> dependencies_of(crates, n, v)
            == DependenciesView::Available(combined(demands_of(crates, n, v))),
{
}

/// The demands of a package whose class fits its version fit too.
proof fn lemma_demands_of_fit(crates: Crates, n: NamesView, v: VersionView)
    requires
        classes_are_right(crates),
        answerable(crates, n, v),
        n is BucketFeatures ==> n->BucketFeatures_1 == compatibility(v),
    ensures
        demands_fit(demands_of(crates, n, v)),
{
    match n {
        NamesView::Bucket(name, _, all) => {
            let data = crates.lookup(name, v)->0;
            assert(all_right(data.deps@));
            lemma_selected_demands_fit(data.deps@, counts(all), name, v);
            assert(demands_fit(link_demands(data, name, v)));
            lemma_demands_fit_add(
                link_demands(data, name, v),
                selected_demands(data.deps@, counts(all), name, v),
            );
        },
        NamesView::BucketFeatures(name, _, feat) => {
            let data = crates.lookup(name, v)->0;
            assert(all_right(data.deps@));
            lemma_selected_demands_fit(data.deps@, turned_on(feat), name, v);
            let own = seq![(NamesView::Bucket(name, compatibility(v), false), only(v))];
            assert(demands_fit(own));
            lemma_demands_fit_add(own, selected_demands(data.deps@, turned_on(feat), name, v));
            let base = feature_base(data, name, feat, v);
            if let Some(vals) = feature_values(data.features@, feat) {
                lemma_values_demands_fit(vals, data.deps@, n, v);
                lemma_demands_fit_add(base, values_demands(vals, data.deps@, n, v));
            }
        },
        _ => {},
    }
}

/// In a solution the demands of each selected package are satisfied.
proof fn lemma_satisfied(
    crates: Crates,
    sel: Map<NamesView, VersionView>,
    root: NamesView,
    n: NamesView,
)
    requires
        is_solution(crates, sel, root),
        sel.contains_key(n),
    ensures
        satisfies(sel, demands_of(crates, n, sel[n])),
{
    lemma_demands_of(crates, n, sel[n]);
    let demands = demands_of(crates, n, sel[n]);
    let all = combined(demands);
    assert(usable(crates, sel, n));
    assert forall|i: int| 0 <= i < demands.len() implies sel.contains_key(
        (#[trigger] demands[i]).0,
    ) && demands[i].1.contains(sel[demands[i].0]) by {
        let m = demands[i].0;
        assert(demands_at(demands, i, m));
        assert(all.contains_key(m));
        assert(leads_to(crates, sel, n, m));
        assert(all[m].contains(sel[m]));
    }
}

/// The class under which a crate or a feature is selected is that of its version.
spec fn class_fits(sel: Map<NamesView, VersionView>, n: NamesView) -> bool {
    match n {
        NamesView::Bucket(_, c, _) => c == compatibility(sel[n]),
        NamesView::BucketFeatures(_, c, _) => c == compatibility(sel[n]),
        _ => true,
    }
}

proof fn lemma_class_fits_on_path(
    crates: Crates,
    sel: Map<NamesView, VersionView>,
    root: NamesView,
    path: Seq<NamesView>,
)
    requires
        is_solution(crates, sel, root),
        classes_are_right(crates),
        path_from_root(crates, sel, root, path),
    ensures
        sel.contains_key(path.last()),
        class_fits(sel, path.last()),
    decreases path.len(),
{
    if path.len() > 1 {
        let short = path.drop_last();
        assert forall|i: int| 0 <= i < short.len() - 1 implies leads_to(
            crates,
            sel,
            #[trigger] short[i],
            short[i + 1],
        ) by {
            assert(short[i] == path[i] && short[i + 1] == path[i + 1]);
        }
        lemma_class_fits_on_path(crates, sel, root, short);
        let k = short.last();
        let n = path.last();
        assert(leads_to(crates, sel, path[path.len() - 2], path[path.len() - 1]));
        lemma_demands_of(crates, k, sel[k]);
        assert(answerable(crates, k, sel[k]));
        lemma_demands_of_fit(crates, k, sel[k]);
        let demands = demands_of(crates, k, sel[k]);
        assert(combined(demands).contains_key(n));
        let i = choose|i: int| demands_at(demands, i, n);
        assert(combined(demands)[n].contains(sel[n]));
        assert(demand_fits(demands[i]));
        assert(demands[i].1.contains(sel[n]));
    }
}

proof fn lemma_class_fits(
    crates: Crates,
    sel: Map<NamesView, VersionView>,
    root: NamesView,
    n: NamesView,
)
    requires
        is_solution(crates, sel, root),
        classes_are_right(crates),
        sel.contains_key(n),
    ensures
        class_fits(sel, n),
{
    let path = choose|path: Seq<NamesView>| #[trigger]
        path_from_root(crates, sel, root, path) && path.last() == n;
    lemma_class_fits_on_path(crates, sel, root, path);
}

/// A feature demands its own crate, at the same version.
pub proof fn feature_demands_its_crate(
    crates: Crates,
    n: NamesView,
    v: VersionView,
)
    requires
        n is BucketFeatures,
        dependencies_of(crates, n, v) is Available,
    ensures
        ({
            let own = NamesView::Bucket(n.crate_name(), compatibility(v), false);
            let deps = dependencies_of(crates, n, v)->Available_0;
            deps.contains_key(own) && deps[own].subset_of(only(v))
        }),
{
    lemma_demands_of(crates, n, v);
    let demands = demands_of(crates, n, v);
    let own = NamesView::Bucket(n.crate_name(), compatibility(v), false);
    assert(demands[0] == (own, only(v)));
    assert(demands_at(demands, 0, own));
    let deps = combined(demands);
    assert forall|w: VersionView| deps[own].contains(w) implies only(v).contains(w) by {
        assert(demands[0].1.contains(w));
    }
}

/// Two crates that link the same native library and have different numbers demand
/// different versions of it, so no selection satisfies both.
pub proof fn a_library_is_linked_once(
    crates: Crates,
    sel: Map<NamesView, VersionView>,
    a: NamesView,
    b: NamesView,
)
    requires
        a is Bucket,
        b is Bucket,
        usable(crates, sel, a),
        usable(crates, sel, b),
        link_of(crates, sel, a) is Some,
        link_of(crates, sel, a) == link_of(crates, sel, b),
        version_hash(a.crate_name(), sel[a]) != version_hash(b.crate_name(), sel[b]),
    ensures
        ({
            let library = NamesView::Links(link_of(crates, sel, a)->0);
            let for_a = dependencies_of(crates, a, sel[a])->Available_0;
            let for_b = dependencies_of(crates, b, sel[b])->Available_0;
            &&& for_a.contains_key(library)
            &&& for_b.contains_key(library)
            &&& for_a[library].disjoint(for_b[library])
        }),
{
    let library = NamesView::Links(link_of(crates, sel, a)->0);
    let xs = demands_of(crates, a, sel[a]);
    let ys = demands_of(crates, b, sel[b]);
    lemma_demands_of(crates, a, sel[a]);
    lemma_demands_of(crates, b, sel[b]);
    let x = VersionView::plain(version_hash(a.crate_name(), sel[a]), 0, 0);
    let y = VersionView::plain(version_hash(b.crate_name(), sel[b]), 0, 0);
    assert(xs[0] == (library, only(x)));
    assert(ys[0] == (library, only(y)));
    assert(demands_at(xs, 0, library));
    assert(demands_at(ys, 0, library));
    assert forall|w: VersionView| combined(xs)[library].contains(w) implies !combined(
        ys,
    )[library].contains(w) by {
        assert(xs[0].1.contains(w));
        if combined(ys)[library].contains(w) {
            assert(ys[0].1.contains(w));
        }
    }
}

/// Two different versions of crates that link the same native library, be they of one crate
/// or of two, demand different versions of it, so no selection satisfies both; unless the
/// hash gives one value to the different series of bytes that are made from them.
pub proof fn different_versions_do_not_link_together(
    crates: Crates,
    sel: Map<NamesView, VersionView>,
    a: NamesView,
    b: NamesView,
)
    requires
        a is Bucket,
        b is Bucket,
        usable(crates, sel, a),
        usable(crates, sel, b),
        crates.lookup(a.crate_name(), sel[a])->0.links is Some,
        crates.lookup(b.crate_name(), sel[b])->0.links is Some,
        crates.lookup(a.crate_name(), sel[a])->0.links->0@ == crates.lookup(
            b.crate_name(),
            sel[b],
        )->0.links->0@,
        a.crate_name() != b.crate_name() || sel[a] != sel[b],
    ensures
        ({
            let library = NamesView::Links(crates.lookup(a.crate_name(), sel[a])->0.links->0@);
            let for_a = dependencies_of(crates, a, sel[a])->Available_0;
            let for_b = dependencies_of(crates, b, sel[b])->Available_0;
            let key_a = version_key(a.crate_name(), sel[a]);
            let key_b = version_key(b.crate_name(), sel[b]);
            &&& for_a.contains_key(library) && for_b.contains_key(library)
            &&& key_a != key_b
            &&& for_a[library].disjoint(for_b[library]) || DefaultHasher::spec_finish(seq![key_a])
                == DefaultHasher::spec_finish(seq![key_b])
        }),
{
    let (m, v) = (a.crate_name(), sel[a]);
    let (n, w) = (b.crate_name(), sel[b]);
    if version_key(m, v) == version_key(n, w) {
        version_key_is_unique(m, v, n, w);
    }
    let library = NamesView::Links(crates.lookup(m, v)->0.links->0@);
    if version_hash(m, v) == version_hash(n, w) {
        equal_numbers_are_collisions(m, v, n, w);
        lemma_demands_of(crates, a, v);
        lemma_demands_of(crates, b, w);
        assert(demands_of(crates, a, v)[0].0 == library);
        assert(demands_of(crates, b, w)[0].0 == library);
        assert(demands_at(demands_of(crates, a, v), 0, library));
        assert(demands_at(demands_of(crates, b, w), 0, library));
    } else {
        assert(link_of(crates, sel, a) == link_of(crates, sel, b));
        a_library_is_linked_once(crates, sel, a, b);
    }
}

/// Every crate has the feature `default`, whether it lists it or not: only a yanked version
/// does without.
pub proof fn default_is_always_there(crates: Crates, n: NamesView, v: VersionView)
    requires
        n is BucketFeatures,
        n->BucketFeatures_2 == "default"@,
        crates.lookup(n.crate_name(), v) is Some,
    ensures
        dependencies_of(crates, n, v) is Available <==> !crates.lookup(
            n.crate_name(),
            v,
        )->0.yanked,
{
}

/// Each of the demands is among `all`.
spec fn listed(demands: Seq<Demand>, all: Seq<Demand>) -> bool {
    forall|k: int| 0 <= k < demands.len() ==> all.contains(#[trigger] demands[k])
}

/// What a selected dependency demands is listed.
proof fn lemma_selected_are_listed(
    deps: Seq<Dependency>,
    pred: spec_fn(Dependency) -> bool,
    parent: Seq<char>,
    v: VersionView,
    i: int,
)
    requires
        0 <= i < deps.len(),
        pred(deps[i]),
    ensures
        listed(dependency_demands(deps[i], parent, v), selected_demands(deps, pred, parent, v)),
    decreases deps.len(),
{
    let rest = deps.drop_last();
    let before = selected_demands(rest, pred, parent, v);
    let all = selected_demands(deps, pred, parent, v);
    let own = dependency_demands(deps[i], parent, v);
    if i < rest.len() {
        assert(rest[i] == deps[i]);
        lemma_selected_are_listed(rest, pred, parent, v, i);
    }
    assert forall|k: int| 0 <= k < own.len() implies all.contains(#[trigger] own[k]) by {
        if i == rest.len() {
            assert(all[before.len() + k] == own[k]);
        } else {
            let j = choose|j: int| 0 <= j < before.len() && before[j] == own[k];
            assert(all[j] == own[k]);
        }
    }
}

/// The answer makes each of the demands, or a stricter one.
pub open spec fn makes(deps: Map<NamesView, Set<VersionView>>, demands: Seq<Demand>) -> bool {
    forall|k: int|
        0 <= k < demands.len() ==> deps.contains_key((#[trigger] demands[k]).0)
            && deps[demands[k].0].subset_of(demands[k].1)
}

proof fn lemma_listed_are_made(demands: Seq<Demand>, all: Seq<Demand>)
    requires
        listed(demands, all),
    ensures
        makes(combined(all), demands),
{
    assert forall|k: int| 0 <= k < demands.len() implies combined(all).contains_key(
        (#[trigger] demands[k]).0,
    ) && combined(all)[demands[k].0].subset_of(demands[k].1) by {
        let j = choose|j: int| 0 <= j < all.len() && all[j] == demands[k];
        assert(demands_at(all, j, demands[k].0));
    }
}

/// A crate that can be used demands what its dependencies demand, all but the optional
/// ones and those for development; the crate that is resolved demands what all of them do.
pub proof fn a_crate_demands_its_dependencies(
    crates: Crates,
    n: NamesView,
    v: VersionView,
    i: int,
)
    requires
        n is Bucket,
        dependencies_of(crates, n, v) is Available,
        0 <= i < crates.lookup(n.crate_name(), v)->0.deps@.len(),
        n->Bucket_2 || (!(crates.lookup(n.crate_name(), v)->0.deps@[i].kind is Dev)
            && !crates.lookup(n.crate_name(), v)->0.deps@[i].optional),
    ensures
        makes(
            dependencies_of(crates, n, v)->Available_0,
            dependency_demands(
                crates.lookup(n.crate_name(), v)->0.deps@[i],
                n.crate_name(),
                v,
            ),
        ),
{
    let data = crates.lookup(n.crate_name(), v)->0;
    let own = dependency_demands(data.deps@[i], n.crate_name(), v);
    let first = link_demands(data, n.crate_name(), v);
    let rest = selected_demands(data.deps@, counts(n.is_root()), n.crate_name(), v);
    lemma_selected_are_listed(data.deps@, counts(n.is_root()), n.crate_name(), v, i);
    let all = first + rest;
    assert forall|k: int| 0 <= k < own.len() implies all.contains(#[trigger] own[k]) by {
        let j = choose|j: int| 0 <= j < rest.len() && rest[j] == own[k];
        assert(all[first.len() + j] == own[k]);
    }
    lemma_listed_are_made(own, all);
}

/// What a crate leaves out because it is optional comes with the feature of that name,
/// unless it is the class of the crate itself.
pub proof fn an_optional_dependency_comes_with_its_feature(
    crates: Crates,
    n: NamesView,
    v: VersionView,
    i: int,
)
    requires
        n is BucketFeatures,
        crates.lookup(n.crate_name(), v) is Some,
        !crates.lookup(n.crate_name(), v)->0.yanked,
        0 <= i < crates.lookup(n.crate_name(), v)->0.deps@.len(),
        !(crates.lookup(n.crate_name(), v)->0.deps@[i].kind is Dev),
        crates.lookup(n.crate_name(), v)->0.deps@[i].optional,
        crates.lookup(n.crate_name(), v)->0.deps@[i].name@ == n->BucketFeatures_2,
        target(crates.lookup(n.crate_name(), v)->0.deps@[i], n.crate_name(), v)
            != NamesView::Bucket(n.crate_name(), compatibility(v), false),
    ensures
        dependencies_of(crates, n, v) matches DependenciesView::Available(deps) && makes(
            deps,
            dependency_demands(
                crates.lookup(n.crate_name(), v)->0.deps@[i],
                n.crate_name(),
                v,
            ),
        ),
{
    let name = n.crate_name();
    let feat = n->BucketFeatures_2;
    let data = crates.lookup(name, v)->0;
    let own = dependency_demands(data.deps@[i], name, v);
    let all = feature_base(data, name, feat, v);
    let rest = selected_demands(data.deps@, turned_on(feat), name, v);
    lemma_selected_are_listed(data.deps@, turned_on(feat), name, v, i);
    assert forall|k: int| 0 <= k < own.len() implies all.contains(#[trigger] own[k]) by {
        let j = choose|j: int| 0 <= j < rest.len() && rest[j] == own[k];
        assert(all[1 + j] == own[k]);
    }
    lemma_listed_are_made(own, all);
    let crate_itself = NamesView::Bucket(name, compatibility(v), false);
    let other = target(data.deps@[i], name, v);
    assert(own[0].0 == other);
    assert(demands_at(all, 0, crate_itself));
    let both = set![crate_itself, other];
    lemma_combined_finite(all);
    assert(both.subset_of(combined(all).dom()));
    vstd::set_lib::lemma_len_subset(both, combined(all).dom());
    assert(both.len() == 2);
    assert(combined(all).len() > 1);
}

/// Where the version that stands for a class was chosen for a requirement, because some
/// version of the class meets it, the demand that follows can be met: the index holds a
/// version that will do.
pub proof fn a_chosen_class_has_a_version(
    crates: Crates,
    n: NamesView,
    c: SemverCompatibility,
)
    requires
        n is Wide,
        class_will_do(crates, n.crate_name(), n->Wide_1, c),
    ensures
        ({
            let deps = dependencies_of(crates, n, c.canonical_view())->Available_0;
            let class = NamesView::Bucket(n.crate_name(), c, false);
            &&& dependencies_of(crates, n, c.canonical_view()) is Available
            &&& deps.contains_key(class)
            &&& exists|w: VersionView|
                (#[trigger] crates.lookup(n.crate_name(), w)) is Some && deps[class].contains(w)
        }),
{
    let v = c.canonical_view();
    let demands = wide_demands(n.crate_name(), n->Wide_1, v);
    let class = NamesView::Bucket(n.crate_name(), c, false);
    let w = choose|w: VersionView|
        (#[trigger] crates.lookup(n.crate_name(), w)) is Some && requirement_matches(n->Wide_1, w)
            && compatibility(w) == c;
    assert(compatibility(v) == c);
    assert(demands_at(demands, 0, class));
    assert(combined(demands)[class].contains(w));
}

/// An index that holds the same of every version of a crate that was asked for gives the
/// same answers to what was asked.
pub proof fn replay_gives_the_same_answers(full: Crates, part: Crates, recorded: Set<Pinned>)
    requires
        forall|name: Seq<char>, v: VersionView| #[trigger]
            crates_asked(recorded, name, v) ==> part.lookup(name, v) == full.lookup(name, v),
    ensures
        forall|p: Pinned| #[trigger]
            recorded.contains(p) ==> dependencies_of(part, p.0, p.1) == dependencies_of(
                full,
                p.0,
                p.1,
            ) && answerable(part, p.0, p.1) == answerable(full, p.0, p.1),
{
    assert forall|p: Pinned| #[trigger] recorded.contains(p) implies dependencies_of(
        part,
        p.0,
        p.1,
    ) == dependencies_of(full, p.0, p.1) && answerable(part, p.0, p.1) == answerable(
        full,
        p.0,
        p.1,
    ) by {
        if p.0 is Bucket || p.0 is BucketFeatures {
            assert(crates_asked(recorded, p.0.crate_name(), p.1));
        }
    }
}

/// What a resolver can ask of the index.
pub enum Question {
    /// Which version a package gets among those for which the function holds, where the
    /// range of a native library includes its upper end, if there is one.
    Version(NamesView, spec_fn(VersionView) -> bool, Option<VersionView>),
    /// How urgent it is to decide on a package.
    Priority(NamesView, spec_fn(VersionView) -> bool),
    /// What a package demands at a version.
    Demands(NamesView, VersionView),
}

/// What the index says to it.
pub enum Answer {
    Version(Option<VersionView>),
    NoVersion,
    Priority(nat),
    Demands(DependenciesView),
}

/// The answer of an index to a question.
pub open spec fn answer(index: Index, question: Question) -> Answer {
    match question {
        Question::Version(n, p, upper) => if !(n is Links) {
            Answer::Version(first_with(candidates(index.crates(), n), p))
        } else if upper is Some {
            Answer::Version(upper)
        } else {
            Answer::NoVersion
        },
        Question::Priority(n, p) => Answer::Priority(
            if n is Links {
                usize::MAX as nat
            } else {
                counted(index.crates(), n).filter(p).len()
            },
        ),
        Question::Demands(n, v) => Answer::Demands(dependencies_of(index.crates(), n, v)),
    }
}

/// What a question changes: the index stays the same, and it is recorded what was asked for.
pub open spec fn asked(before: Index, question: Question, after: Index) -> bool {
    &&& after.crates() == before.crates()
    &&& after.recorded() == match question {
        Question::Demands(n, v) => before.recorded().insert((n, v)),
        _ => before.recorded(),
    }
}

/// The answers that a resolver got, which asks what its function says, from the answers so
/// far on, where the index went through these states.
pub open spec fn transcript(
    states: Seq<Index>,
    resolver: spec_fn(Seq<Answer>) -> Question,
    answers: Seq<Answer>,
) -> bool {
    &&& states.len() == answers.len() + 1
    &&& forall|i: int|
        0 <= i < answers.len() ==> {
            let question = resolver(answers.take(i));
            &&& #[trigger] answers[i] == answer(states[i], question)
            &&& asked(states[i], question, states[i + 1])
        }
}

/// What was asked of an index before does not matter: a resolver that is not cancelled gets
/// the same answers from two indexes over the same crates, whatever they were asked before,
/// and so comes to the same end; and if both were reset, the same is recorded afterwards.
pub proof fn earlier_runs_do_not_matter(
    resolver: spec_fn(Seq<Answer>) -> Question,
    states_a: Seq<Index>,
    answers_a: Seq<Answer>,
    states_b: Seq<Index>,
    answers_b: Seq<Answer>,
)
    requires
        transcript(states_a, resolver, answers_a),
        transcript(states_b, resolver, answers_b),
        answers_a.len() == answers_b.len(),
        states_a[0].crates() == states_b[0].crates(),
    ensures
        answers_a == answers_b,
        states_a.last().crates() == states_a[0].crates(),
        states_b.last().crates() == states_a[0].crates(),
        states_a[0].recorded() == Set::<Pinned>::empty() && states_b[0].recorded() == Set::<
            Pinned,
        >::empty() ==> states_a.last().recorded() == states_b.last().recorded(),
    decreases answers_a.len(),
{
    if answers_a.len() > 0 {
        let n = answers_a.len() - 1;
        let (short_a, short_b) = (answers_a.drop_last(), answers_b.drop_last());
        let (before_a, before_b) = (states_a.drop_last(), states_b.drop_last());
        assert forall|i: int| 0 <= i < short_a.len() implies ({
            let question = resolver(short_a.take(i));
            &&& #[trigger] short_a[i] == answer(before_a[i], question)
            &&& asked(before_a[i], question, before_a[i + 1])
        }) by {
            assert(answers_a[i] == short_a[i]);
            assert(short_a.take(i) =~= answers_a.take(i));
        }
        assert forall|i: int| 0 <= i < short_b.len() implies ({
            let question = resolver(short_b.take(i));
            &&& #[trigger] short_b[i] == answer(before_b[i], question)
            &&& asked(before_b[i], question, before_b[i + 1])
        }) by {
            assert(answers_b[i] == short_b[i]);
            assert(short_b.take(i) =~= answers_b.take(i));
        }
        earlier_runs_do_not_matter(resolver, before_a, short_a, before_b, short_b);
        assert(answers_a.take(n) =~= short_a && answers_b.take(n) =~= short_b);
        assert(before_a.last() == states_a[n] && before_b.last() == states_b[n]);
        assert(answers_a[n] == answers_b[n]);
        assert(answers_a =~= short_a.push(answers_a[n]));
        assert(answers_b =~= short_b.push(answers_b[n]));
    } else {
        assert(answers_a =~= answers_b);
    }
}

/// What satisfies the list satisfies each dependency that is selected for it.
proof fn lemma_selected(
    deps: Seq<Dependency>,
    pred: spec_fn(Dependency) -> bool,
    parent: Seq<char>,
    v: VersionView,
    i: int,
    sel: Map<NamesView, VersionView>,
)
    requires
        0 <= i < deps.len(),
        pred(deps[i]),
        satisfies(sel, selected_demands(deps, pred, parent, v)),
    ensures
        satisfies(sel, dependency_demands(deps[i], parent, v)),
{
    let all = selected_demands(deps, pred, parent, v);
    let own = dependency_demands(deps[i], parent, v);
    lemma_selected_are_listed(deps, pred, parent, v, i);
    assert forall|k: int| 0 <= k < own.len() implies sel.contains_key((#[trigger] own[k]).0)
        && own[k].1.contains(sel[own[k].0]) by {
        let j = choose|j: int| 0 <= j < all.len() && all[j] == own[k];
        assert(all[j].1.contains(sel[all[j].0]));
    }
}

/// A part of what is satisfied is satisfied.
proof fn lemma_satisfies_part(
    sel: Map<NamesView, VersionView>,
    a: Seq<Demand>,
    b: Seq<Demand>,
)
    requires
        satisfies(sel, a + b),
    ensures
        satisfies(sel, a),
        satisfies(sel, b),
{
    assert forall|i: int| 0 <= i < a.len() implies sel.contains_key((#[trigger] a[i]).0)
        && a[i].1.contains(sel[a[i].0]) by {
        assert((a + b)[i] == a[i]);
    }
    assert forall|i: int| 0 <= i < b.len() implies sel.contains_key((#[trigger] b[i]).0)
        && b[i].1.contains(sel[b[i].0]) by {
        assert((a + b)[a.len() + i] == b[i]);
    }
}

/// In a solution a requirement is met by a crate of the class of its version.
proof fn lemma_wide(
    crates: Crates,
    sel: Map<NamesView, VersionView>,
    root: NamesView,
    n: NamesView,
)
    requires
        is_solution(crates, sel, root),
        sel.contains_key(n),
        n is Wide,
    ensures
        ({
            let bucket = NamesView::Bucket(n.crate_name(), compatibility(sel[n]), false);
            sel.contains_key(bucket) && requirement_matches(n->Wide_1, sel[bucket])
        }),
{
    lemma_satisfied(crates, sel, root, n);
    let below = wide_demands(n.crate_name(), n->Wide_1, sel[n]);
    let bucket = NamesView::Bucket(n.crate_name(), compatibility(sel[n]), false);
    assert(demands_of(crates, n, sel[n]) == below);
    assert(below[0].0 == bucket);
}

/// In a solution a feature under a requirement is selected for the class of the version of
/// the requirement.
proof fn lemma_wide_feature(
    crates: Crates,
    sel: Map<NamesView, VersionView>,
    root: NamesView,
    n: NamesView,
    f: Seq<char>,
)
    requires
        is_solution(crates, sel, root),
        n is Wide,
        sel.contains_key(n.featured(f)),
    ensures
        sel.contains_key(
            NamesView::BucketFeatures(n.crate_name(), compatibility(sel[n]), f),
        ),
{
    let wide = n.featured(f);
    lemma_satisfied(crates, sel, root, wide);
    let both = wide_feature_demands(
        n.crate_name(),
        n->Wide_1,
        n->Wide_2,
        n->Wide_3,
        f,
        sel[wide],
    );
    assert(demands_of(crates, wide, sel[wide]) == both);
    assert(both[0].0 == n);
    assert(both[0].1.contains(sel[n]));
    assert(both[1].0 == NamesView::BucketFeatures(n.crate_name(), compatibility(sel[n]), f));
}

/// What it means that the demands of a dependency are satisfied.
proof fn lemma_dependency_satisfied(
    sel: Map<NamesView, VersionView>,
    dep: Dependency,
    parent: Seq<char>,
    v: VersionView,
)
    requires
        satisfies(sel, dependency_demands(dep, parent, v)),
    ensures
        ({
            let t = target(dep, parent, v);
            &&& sel.contains_key(t)
            &&& target_versions(dep).contains(sel[t])
            &&& dep.default_features ==> sel.contains_key(t.featured("default"@))
            &&& forall|i: int|
                0 <= i < dep.features@.len() ==> sel.contains_key(
                    t.featured((#[trigger] dep.features@[i])@),
                )
        }),
{
    let t = target(dep, parent, v);
    let r = target_versions(dep);
    let named = dep.features@.map_values(|f: String| (t.featured(f@), r));
    let base = seq![(t, r)];
    let first = if dep.default_features {
        base.push((t.featured("default"@), r))
    } else {
        base
    };
    lemma_satisfies_part(sel, first, named);
    assert(first[0] == (t, r));
    if dep.default_features {
        assert(first[1] == (t.featured("default"@), r));
    }
    assert forall|i: int| 0 <= i < dep.features@.len() implies sel.contains_key(
        t.featured((#[trigger] dep.features@[i])@),
    ) by {
        assert(named[i] == (t.featured(dep.features@[i]@), r));
    }
}

/// Where the demands of a dependency are satisfied, so is the dependency.
proof fn lemma_fulfilled(
    crates: Crates,
    sel: Map<NamesView, VersionView>,
    root: NamesView,
    dep: Dependency,
    parent: Seq<char>,
    v: VersionView,
)
    requires
        is_solution(crates, sel, root),
        satisfies(sel, dependency_demands(dep, parent, v)),
    ensures
        fulfilled(sel, dep),
{
    let t = target(dep, parent, v);
    lemma_dependency_satisfied(sel, dep, parent, v);
    match dep.only_compatibility {
        Some(c) => {
            assert(will_do(sel, t, dep));
            assert(is_dependency(sel, t));
        },
        None => {
            lemma_wide(crates, sel, root, t);
            let c = compatibility(sel[t]);
            let bucket = NamesView::Bucket(dep.package_name@, c, false);
            assert forall|i: int| 0 <= i < dep.features@.len() implies sel.contains_key(
                NamesView::BucketFeatures(dep.package_name@, c, (#[trigger] dep.features@[i])@),
            ) by {
                lemma_wide_feature(crates, sel, root, t, dep.features@[i]@);
            }
            if dep.default_features {
                lemma_wide_feature(crates, sel, root, t, "default"@);
            }
            assert(will_do(sel, bucket, dep));
            assert(is_dependency(sel, bucket));
        },
    }
}

/// In a solution each selected crate has what it needs.
proof fn lemma_crate_holds(
    crates: Crates,
    sel: Map<NamesView, VersionView>,
    root: NamesView,
    n: NamesView,
)
    requires
        is_solution(crates, sel, root),
        features_agree(sel),
        is_dependency(sel, n),
    ensures
        crate_holds(crates, sel, n),
{
    let name = n.crate_name();
    let v = sel[n];
    let data = selected_data(crates, sel, n);
    assert(usable(crates, sel, n));
    assert forall|i: int|
        0 <= i < data.deps@.len() && needed(sel, n, #[trigger] data.deps@[i]) implies fulfilled(
        sel,
        data.deps@[i],
    ) by {
        let dep = data.deps@[i];
        if dep.optional {
            let k = NamesView::BucketFeatures(name, n->Bucket_1, dep.name@);
            assert(crate_of_feature(k) == n);
            assert(sel.contains_key(k));
            lemma_satisfied(crates, sel, root, k);
            let base = feature_base(data, name, dep.name@, v);
            let chosen = selected_demands(data.deps@, turned_on(dep.name@), name, v);
            let all = demands_of(crates, k, v);
            if all != base {
                let vals = feature_values(data.features@, dep.name@)->0;
                lemma_satisfies_part(sel, base, values_demands(vals, data.deps@, k, v));
            }
            lemma_satisfies_part(
                sel,
                seq![(NamesView::Bucket(name, compatibility(v), false), only(v))],
                chosen,
            );
            lemma_selected(data.deps@, turned_on(dep.name@), name, v, i, sel);
        } else {
            lemma_satisfied(crates, sel, root, n);
            lemma_satisfies_part(
                sel,
                link_demands(data, name, v),
                selected_demands(data.deps@, counts(false), name, v),
            );
            lemma_selected(data.deps@, counts(false), name, v, i, sel);
        }
        lemma_fulfilled(crates, sel, root, dep, name, v);
    }
}

proof fn lemma_chain_is_selected(
    crates: Crates,
    sel: Map<NamesView, VersionView>,
    root: NamesView,
    path: Seq<NamesView>,
)
    requires
        is_solution(crates, sel, root),
        chain(crates, sel, root, path),
    ensures
        sel.contains_key(path.last()),
{
    if path.len() > 1 {
        assert(leads_to(crates, sel, path[path.len() - 2], path[path.len() - 1]));
    }
}

/// A solution passes the check: where every demand is satisfied and nothing is selected
/// without need, the selection can be checked, no chain of it is broken, and it can be
/// built. It takes an index that gives the classes of its dependencies right, and numbers
/// that do not collide for two crates that link the same library.
pub proof fn a_solution_passes_the_check(
    crates: Crates,
    sel: Map<NamesView, VersionView>,
    root: NamesView,
)
    requires
        is_solution(crates, sel, root),
        classes_are_right(crates),
        numbers_differ(crates, sel),
    ensures
        checkable(crates, sel, root),
        !broken(crates, sel, root),
        consistent(crates, sel),
{
    assert forall|n: NamesView| #[trigger] sel.contains_key(n) implies class_fits(sel, n) by {
        lemma_class_fits(crates, sel, root, n);
    }
    assert(buckets_agree(sel));
    assert forall|n: NamesView| #[trigger] sel.contains_key(n) && n is BucketFeatures implies {
        &&& crate::check::feature_class_agrees(sel, n)
        &&& sel.contains_key(crate_of_feature(n))
        &&& sel[crate_of_feature(n)] == sel[n]
    } by {
        assert(class_fits(sel, n));
        assert(usable(crates, sel, n));
        feature_demands_its_crate(crates, n, sel[n]);
        assert(leads_to(crates, sel, n, crate_of_feature(n)));
    }
    assert(features_agree(sel));
    assert forall|n: NamesView| #[trigger] is_dependency(sel, n) implies crate_holds(
        crates,
        sel,
        n,
    ) by {
        lemma_crate_holds(crates, sel, root, n);
    }
    assert forall|a: NamesView, b: NamesView|
        #![trigger is_dependency(sel, a), is_dependency(sel, b)]
        is_dependency(sel, a) && is_dependency(sel, b) && a != b && link_of(crates, sel, a)
            is Some implies link_of(crates, sel, a) != link_of(crates, sel, b) by {
        if link_of(crates, sel, a) == link_of(crates, sel, b) {
            assert(usable(crates, sel, a) && usable(crates, sel, b));
            assert(class_fits(sel, a) && class_fits(sel, b));
            a_library_is_linked_once(crates, sel, a, b);
            let library = NamesView::Links(link_of(crates, sel, a)->0);
            assert(leads_to(crates, sel, a, library));
            assert(leads_to(crates, sel, b, library));
        }
    }
    assert(links_differ(crates, sel));
    assert forall|path: Seq<NamesView>| #[trigger] chain(crates, sel, root, path) implies usable(
        crates,
        sel,
        path.last(),
    ) by {
        lemma_chain_is_selected(crates, sel, root, path);
    }
    assert forall|n: NamesView| #[trigger] is_dependency(sel, n) implies crates.lookup(
        n.crate_name(),
        sel[n],
    ) is Some by {
        assert(answerable(crates, n, sel[n]));
    }
    assert forall|p: Pinned| #[trigger] crate::walk::walked(
        crates,
        sel,
        root,
        p,
    ) implies answerable(crates, p.0, p.1) by {
        assert(sel.contains_key(p.0));
    }
}

} // verus!
