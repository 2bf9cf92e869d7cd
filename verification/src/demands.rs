//! What the packages of a version of a crate demand.

use vstd::prelude::*;
use crate::constraints::{
    combined, deps_insert, lemma_combined_push, Demand, Dependencies, DependenciesView,
    DependencyConstraints,
};
use crate::hasher::{hash_version, version_hash};
use crate::index_data::{feature_values, get_feature, Dependency, DependencyKind, VersionData};
use crate::names::{new_bucket, new_links, new_wide, Names, NamesView};
use crate::text::{contains_char, split_tokens, texts, tokens, trim_dep_prefix, without_dep_prefix};
use crate::version::{compatibility, SemverCompatibility, Version, VersionReq, VersionView};
use crate::version_set::{compatible, matching, only, VersionSet};

verus! {

/// The package that stands for a dependency of the version `v` of the crate `parent`:
/// the class of the crate, if only one can do, or else the requirement.
pub open spec fn target(dep: Dependency, parent: Seq<char>, v: VersionView) -> NamesView {
    match dep.only_compatibility {
        Some(c) => NamesView::Bucket(dep.package_name@, c, false),
        None => NamesView::Wide(dep.package_name@, dep.req@, parent, compatibility(v)),
    }
}

/// The versions of that package that will do.
pub open spec fn target_versions(dep: Dependency) -> Set<VersionView> {
    match dep.only_compatibility {
        Some(_) => matching(dep.req@),
        None => Set::full(),
    }
}

/// What a dependency demands: its package, with the default features if it wants
/// them, and each feature that it names.
pub open spec fn dependency_demands(dep: Dependency, parent: Seq<char>, v: VersionView) -> Seq<
    Demand,
> {
    let t = target(dep, parent, v);
    let r = target_versions(dep);
    let base = seq![(t, r)];
    let with_default = if dep.default_features {
        base.push((t.featured("default"@), r))
    } else {
        base
    };
    with_default + dep.features@.map_values(|f: String| (t.featured(f@), r))
}

/// What those dependencies demand that `pred` selects, in order.
pub open spec fn selected_demands(
    deps: Seq<Dependency>,
    pred: spec_fn(Dependency) -> bool,
    parent: Seq<char>,
    v: VersionView,
) -> Seq<Demand>
    decreases deps.len(),
{
    if deps.len() == 0 {
        Seq::empty()
    } else {
        let before = selected_demands(deps.drop_last(), pred, parent, v);
        if pred(deps.last()) {
            before + dependency_demands(deps.last(), parent, v)
        } else {
            before
        }
    }
}

/// The dependencies that count for a crate: all for the one that is resolved, and
/// otherwise those that are neither optional nor for development.
pub open spec fn counts(all_features: bool) -> spec_fn(Dependency) -> bool {
    |dep: Dependency| all_features || !(dep.kind is Dev || dep.optional)
}

/// The dependencies that the feature `feat` turns on.
pub open spec fn turned_on(feat: Seq<char>) -> spec_fn(Dependency) -> bool {
    |dep: Dependency| !(dep.kind is Dev) && dep.optional && dep.name@ == feat
}

/// The demand for the native library of a crate: the version with the number of the crate.
/// Another crate asks for the same one only if their numbers collide.
pub open spec fn link_demands(data: VersionData, name: Seq<char>, v: VersionView) -> Seq<Demand> {
    match data.links {
        Some(link) => seq![
            (NamesView::Links(link@), only(VersionView::plain(version_hash(name, v), 0, 0))),
        ],
        None => Seq::empty(),
    }
}

/// Some dependency that counts leads back to the package itself.
pub open spec fn depends_on_itself(
    deps: Seq<Dependency>,
    pred: spec_fn(Dependency) -> bool,
    package: NamesView,
    v: VersionView,
) -> bool {
    exists|i: int|
        0 <= i < deps.len() && pred(#[trigger] deps[i]) && target(
            deps[i],
            package.crate_name(),
            v,
        ) == package
}

/// What the package of a crate demands.
pub open spec fn bucket_demands(
    data: VersionData,
    name: Seq<char>,
    all_features: bool,
    v: VersionView,
) -> Seq<Demand> {
    link_demands(data, name, v) + selected_demands(data.deps@, counts(all_features), name, v)
}

/// The answer for the package of a crate.
pub open spec fn bucket_answer(
    data: VersionData,
    name: Seq<char>,
    compat: SemverCompatibility,
    all_features: bool,
    v: VersionView,
) -> DependenciesView {
    if data.yanked {
        DependenciesView::Unavailable("yanked"@)
    } else if depends_on_itself(
        data.deps@,
        counts(all_features),
        NamesView::Bucket(name, compat, all_features),
        v,
    ) {
        DependenciesView::Unavailable("self dep"@)
    } else {
        DependenciesView::Available(combined(bucket_demands(data, name, all_features, v)))
    }
}

/// The demand of the feature `feat` from the dependencies that are known as `dep_name`
/// and not for development, in order.
pub open spec fn feature_of_dependency(
    deps: Seq<Dependency>,
    dep_name: Seq<char>,
    feat: Seq<char>,
    parent: Seq<char>,
    v: VersionView,
) -> Seq<Demand>
    decreases deps.len(),
{
    if deps.len() == 0 {
        Seq::empty()
    } else {
        let before = feature_of_dependency(deps.drop_last(), dep_name, feat, parent, v);
        let dep = deps.last();
        if !(dep.kind is Dev) && dep.name@ == dep_name {
            before.push((target(dep, parent, v).featured(feat), target_versions(dep)))
        } else {
            before
        }
    }
}

/// A feature value that can be read: with a slash in it, it names a dependency and a
/// feature and nothing more.
pub open spec fn readable(val: Seq<char>) -> bool {
    val.contains('/') ==> tokens(without_dep_prefix(val)).len() == 2
}

/// What a feature value demands: `a/b` the feature `b` of the dependency `a`, anything
/// else another feature of the same crate, at the same version.
pub open spec fn value_demands(
    val: Seq<char>,
    deps: Seq<Dependency>,
    package: NamesView,
    v: VersionView,
) -> Seq<Demand> {
    if val.contains('/') {
        let parts = tokens(without_dep_prefix(val));
        feature_of_dependency(deps, parts[0], parts[1], package.crate_name(), v)
    } else {
        seq![(package.featured(without_dep_prefix(val)), only(v))]
    }
}

/// What a list of feature values demands.
pub open spec fn values_demands(
    vals: Seq<Seq<char>>,
    deps: Seq<Dependency>,
    package: NamesView,
    v: VersionView,
) -> Seq<Demand>
    decreases vals.len(),
{
    if vals.len() == 0 {
        Seq::empty()
    } else {
        values_demands(vals.drop_last(), deps, package, v) + value_demands(
            vals.last(),
            deps,
            package,
            v,
        )
    }
}

/// What the package of a feature demands before the feature list is read: the crate
/// itself, at the same version, and the optional dependencies that bear its name.
pub open spec fn feature_base(
    data: VersionData,
    name: Seq<char>,
    feat: Seq<char>,
    v: VersionView,
) -> Seq<Demand> {
    seq![(NamesView::Bucket(name, compatibility(v), false), only(v))] + selected_demands(
        data.deps@,
        turned_on(feat),
        name,
        v,
    )
}

/// The answer for the package of a feature.
pub open spec fn feature_answer(
    data: VersionData,
    name: Seq<char>,
    compat: SemverCompatibility,
    feat: Seq<char>,
    v: VersionView,
) -> DependenciesView {
    let package = NamesView::BucketFeatures(name, compat, feat);
    let base = feature_base(data, name, feat, v);
    if data.yanked {
        DependenciesView::Unavailable("yanked"@)
    } else if combined(base).len() > 1 {
        DependenciesView::Available(combined(base))
    } else {
        match feature_values(data.features@, feat) {
            Some(vals) => DependenciesView::Available(
                combined(base + values_demands(vals, data.deps@, package, v)),
            ),
            None => if feat == "default"@ {
                DependenciesView::Available(combined(base))
            } else {
                DependenciesView::Unavailable("no matching feat"@)
            },
        }
    }
}

/// The feature list can be read, where it has to be.
pub open spec fn feature_is_readable(
    data: VersionData,
    name: Seq<char>,
    feat: Seq<char>,
    v: VersionView,
) -> bool {
    !data.yanked && combined(feature_base(data, name, feat, v)).len() <= 1 ==> (feature_values(
        data.features@,
        feat,
    ) matches Some(vals) ==> forall|i: int| 0 <= i < vals.len() ==> readable(#[trigger] vals[i]))
}

/// The versions of a class that meet a requirement.
pub open spec fn narrowed(req: Seq<char>, v: VersionView) -> Set<VersionView> {
    matching(req).intersect(compatible(compatibility(v)))
}

/// What the package of a requirement demands: the class of the version that was chosen
/// for it, narrowed by the requirement.
pub open spec fn wide_demands(name: Seq<char>, req: Seq<char>, v: VersionView) -> Seq<Demand> {
    seq![(NamesView::Bucket(name, compatibility(v), false), narrowed(req, v))]
}

/// What the package of a feature under a requirement demands: the requirement, at the
/// same version, and the feature of the class of that version.
pub open spec fn wide_feature_demands(
    name: Seq<char>,
    req: Seq<char>,
    parent: Seq<char>,
    parent_compat: SemverCompatibility,
    feat: Seq<char>,
    v: VersionView,
) -> Seq<Demand> {
    seq![
        (NamesView::Wide(name, req, parent, parent_compat), only(v)),
        (NamesView::BucketFeatures(name, compatibility(v), feat), narrowed(req, v)),
    ]
}

/// The package and the versions of it that a dependency asks for.
fn target_of(dep: &Dependency, parent: &String, version: &Version) -> (r: (Names, VersionSet))
    ensures
        r.0@ == target(*dep, parent@, version@),
        r.1@ == target_versions(*dep),
{
    match dep.only_compatibility {
        Some(compat) => (
            new_bucket(dep.package_name.clone(), compat, false),
            VersionSet::from_req(&dep.req),
        ),
        None => (
            new_wide(
                dep.package_name.clone(),
                dep.req.clone(),
                parent.clone(),
                SemverCompatibility::of(version),
            ),
            VersionSet::full(),
        ),
    }
}

/// Makes one demand more.
fn demand(deps: &mut DependencyConstraints, n: Names, r: VersionSet, Ghost(made): Ghost<Seq<Demand>>)
    requires
        old(deps)@ == combined(made),
    ensures
        final(deps)@ == combined(made.push((n@, r@))),
{
    proof {
        lemma_combined_push(made, n@, r@);
    }
    deps_insert(deps, n, r);
}

/// Makes the demands of one dependency, whose package and versions are `cray` and
/// `range`.
fn demand_dependency(
    deps: &mut DependencyConstraints,
    dep: &Dependency,
    cray: Names,
    range: VersionSet,
    Ghost(made): Ghost<Seq<Demand>>,
    Ghost(parent): Ghost<Seq<char>>,
    Ghost(v): Ghost<VersionView>,
)
    requires
        old(deps)@ == combined(made),
        cray@ == target(*dep, parent, v),
        range@ == target_versions(*dep),
    ensures
        final(deps)@ == combined(made + dependency_demands(*dep, parent, v)),
{
    let ghost mut now = made;
    let ghost t = cray@;
    let ghost r = range@;
    demand(deps, cray.clone(), range.clone(), Ghost(now));
    proof {
        now = now.push((t, r));
    }
    if dep.default_features {
        demand(deps, cray.with_features("default".to_string()), range.clone(), Ghost(now));
        proof {
            now = now.push((t.featured("default"@), r));
        }
    }
    let ghost first = now;
    let ghost named = dep.features@.map_values(|f: String| (t.featured(f@), r));
    let mut i: usize = 0;
    while i < dep.features.len()
        invariant
            i <= dep.features.len(),
            !(t is Links),
            t == cray@,
            r == range@,
            named == dep.features@.map_values(|f: String| (t.featured(f@), r)),
            now == first + named.take(i as int),
            deps@ == combined(now),
        decreases dep.features.len() - i,
    {
        demand(deps, cray.with_features(dep.features[i].clone()), range.clone(), Ghost(now));
        proof {
            now = now.push((t.featured(dep.features@[i as int]@), r));
            assert(now =~= first + named.take(i + 1));
        }
        i += 1;
    }
    proof {
        assert(now =~= made + dependency_demands(*dep, parent, v));
    }
}

/// What the package of the version `version` of a crate demands: its native library,
/// and the dependencies that count. A yanked version and one that depends on itself
/// cannot be used.
pub fn bucket_dependencies(
    data: &VersionData,
    name: &String,
    compat: SemverCompatibility,
    all_features: bool,
    version: &Version,
) -> (r: Dependencies)
    ensures
        r@ == bucket_answer(*data, name@, compat, all_features, version@),
{
    if data.yanked {
        return Dependencies::Unavailable("yanked".to_string());
    }
    let package = new_bucket(name.clone(), compat, all_features);
    let mut deps = DependencyConstraints::new();
    let ghost mut made: Seq<Demand> = Seq::empty();
    if let Some(link) = &data.links {
        let unique = Version::new(hash_version(name.as_str(), version), 0, 0);
        demand(&mut deps, new_links(link.clone()), VersionSet::singleton(unique), Ghost(made));
        proof {
            made = made.push(
                (NamesView::Links(link@), only(VersionView::plain(version_hash(name@, version@), 0, 0))),
            );
        }
    }
    let ghost links = made;
    let ghost pred = counts(all_features);
    proof {
        assert(links =~= link_demands(*data, name@, version@));
        assert(data.deps@.take(0) =~= Seq::empty());
    }
    let mut i: usize = 0;
    while i < data.deps.len()
        invariant
            i <= data.deps.len(),
            pred == counts(all_features),
            package@ == NamesView::Bucket(name@, compat, all_features),
            !data.yanked,
            made == links + selected_demands(data.deps@.take(i as int), pred, name@, version@),
            deps@ == combined(made),
            forall|j: int|
                0 <= j < i && pred(#[trigger] data.deps@[j]) ==> target(
                    data.deps@[j],
                    name@,
                    version@,
                ) != package@,
        decreases data.deps.len() - i,
    {
        let dep = &data.deps[i];
        proof {
            assert(data.deps@.take(i + 1).drop_last() =~= data.deps@.take(i as int));
            assert(data.deps@.take(i + 1).last() == *dep);
        }
        let skip: bool = (dep.kind == DependencyKind::Dev || dep.optional) && !all_features;
        if !skip {
            assert(pred(*dep));
            let (cray, req_range) = target_of(dep, name, version);
            if cray.same(&package) {
                assert(depends_on_itself(data.deps@, pred, package@, version@));
                return Dependencies::Unavailable("self dep".to_string());
            }
            demand_dependency(
                &mut deps,
                dep,
                cray,
                req_range,
                Ghost(made),
                Ghost(name@),
                Ghost(version@),
            );
            proof {
                made = made + dependency_demands(*dep, name@, version@);
            }
        }
        proof {
            assert(made =~= links + selected_demands(
                data.deps@.take(i + 1),
                pred,
                name@,
                version@,
            ));
        }
        i += 1;
    }
    proof {
        assert(data.deps@.take(i as int) =~= data.deps@);
        assert(!depends_on_itself(data.deps@, pred, package@, version@));
    }
    Dependencies::Available(deps)
}

/// Makes the demands of the feature `feat` from the dependencies that are known as
/// `dep_name`.
fn demand_feature_of_dependency(
    deps: &mut DependencyConstraints,
    list: &Vec<Dependency>,
    dep_name: &String,
    feat: &String,
    parent: &String,
    version: &Version,
    Ghost(made): Ghost<Seq<Demand>>,
)
    requires
        old(deps)@ == combined(made),
    ensures
        final(deps)@ == combined(
            made + feature_of_dependency(list@, dep_name@, feat@, parent@, version@),
        ),
{
    let ghost mut now = made;
    let mut i: usize = 0;
    proof {
        assert(made + feature_of_dependency(
            list@.take(0),
            dep_name@,
            feat@,
            parent@,
            version@,
        ) =~= made);
    }
    while i < list.len()
        invariant
            i <= list.len(),
            now == made + feature_of_dependency(
                list@.take(i as int),
                dep_name@,
                feat@,
                parent@,
                version@,
            ),
            deps@ == combined(now),
        decreases list.len() - i,
    {
        let dep = &list[i];
        proof {
            assert(list@.take(i + 1).drop_last() =~= list@.take(i as int));
            assert(list@.take(i + 1).last() == *dep);
        }
        if dep.kind != DependencyKind::Dev && dep.name == *dep_name {
            let (cray, req_range) = target_of(dep, parent, version);
            demand(deps, cray.with_features(feat.clone()), req_range, Ghost(now));
            proof {
                now = now.push(
                    (target(*dep, parent@, version@).featured(feat@), target_versions(*dep)),
                );
            }
        }
        proof {
            assert(now =~= made + feature_of_dependency(
                list@.take(i + 1),
                dep_name@,
                feat@,
                parent@,
                version@,
            ));
        }
        i += 1;
    }
    proof {
        assert(list@.take(i as int) =~= list@);
    }
}

/// Makes the demands of a feature value.
fn demand_value(
    deps: &mut DependencyConstraints,
    val: &String,
    list: &Vec<Dependency>,
    package: &Names,
    version: &Version,
    Ghost(made): Ghost<Seq<Demand>>,
)
    requires
        old(deps)@ == combined(made),
        readable(val@),
        !(package@ is Links),
    ensures
        final(deps)@ == combined(made + value_demands(val@, list@, package@, version@)),
{
    if contains_char(val.as_str(), '/') {
        let parts = split_tokens(trim_dep_prefix(val.as_str()));
        proof {
            assert(texts(parts@).len() == 2);
            assert(texts(parts@)[0] == parts@[0]@);
            assert(texts(parts@)[1] == parts@[1]@);
        }
        let parent = package.crate_();
        demand_feature_of_dependency(
            deps,
            list,
            &parts[0],
            &parts[1],
            &parent,
            version,
            Ghost(made),
        );
    } else {
        let other = package.with_features(trim_dep_prefix(val.as_str()).to_string());
        demand(deps, other, VersionSet::singleton(version.clone()), Ghost(made));
        proof {
            assert(made + value_demands(val@, list@, package@, version@) =~= made.push(
                (package@.featured(without_dep_prefix(val@)), only(version@)),
            ));
        }
    }
}

/// What the package of a feature demands before the feature list is read.
fn feature_base_constraints(
    data: &VersionData,
    name: &String,
    feat: &String,
    version: &Version,
) -> (r: DependencyConstraints)
    ensures
        r@ == combined(feature_base(*data, name@, feat@, version@)),
{
    let mut deps = DependencyConstraints::new();
    let ghost mut made: Seq<Demand> = Seq::empty();
    demand(
        &mut deps,
        new_bucket(name.clone(), SemverCompatibility::of(version), false),
        VersionSet::singleton(version.clone()),
        Ghost(made),
    );
    let ghost own = seq![(NamesView::Bucket(name@, compatibility(version@), false), only(version@))];
    let ghost pred = turned_on(feat@);
    proof {
        made = made.push((NamesView::Bucket(name@, compatibility(version@), false), only(version@)));
        assert(made =~= own + selected_demands(data.deps@.take(0), pred, name@, version@));
    }
    let mut i: usize = 0;
    while i < data.deps.len()
        invariant
            i <= data.deps.len(),
            pred == turned_on(feat@),
            made == own + selected_demands(data.deps@.take(i as int), pred, name@, version@),
            deps@ == combined(made),
        decreases data.deps.len() - i,
    {
        let dep = &data.deps[i];
        proof {
            assert(data.deps@.take(i + 1).drop_last() =~= data.deps@.take(i as int));
            assert(data.deps@.take(i + 1).last() == *dep);
        }
        if dep.kind != DependencyKind::Dev && dep.optional && dep.name == *feat {
            assert(pred(*dep));
            let (cray, req_range) = target_of(dep, name, version);
            demand_dependency(
                &mut deps,
                dep,
                cray,
                req_range,
                Ghost(made),
                Ghost(name@),
                Ghost(version@),
            );
            proof {
                made = made + dependency_demands(*dep, name@, version@);
            }
        }
        proof {
            assert(made =~= own + selected_demands(data.deps@.take(i + 1), pred, name@, version@));
        }
        i += 1;
    }
    let ghost base = feature_base(*data, name@, feat@, version@);
    proof {
        assert(data.deps@.take(i as int) =~= data.deps@);
        assert(made =~= base);
    }
    deps
}

/// Whether a feature value can be read.
fn is_readable(val: &String) -> (r: bool)
    ensures
        r == readable(val@),
{
    if contains_char(val.as_str(), '/') {
        let parts = split_tokens(trim_dep_prefix(val.as_str()));
        assert(texts(parts@).len() == parts@.len());
        parts.len() == 2
    } else {
        true
    }
}

/// Whether the feature list of the feature `feat` can be read, where it has to be.
pub fn feature_can_be_read(
    data: &VersionData,
    name: &String,
    feat: &String,
    version: &Version,
) -> (r: bool)
    ensures
        r == feature_is_readable(*data, name@, feat@, version@),
{
    if data.yanked || feature_base_constraints(data, name, feat, version).len() > 1 {
        return true;
    }
    match get_feature(&data.features, feat) {
        Some(vals) => {
            let mut k: usize = 0;
            while k < vals.len()
                invariant
                    k <= vals.len(),
                    !data.yanked,
                    combined(feature_base(*data, name@, feat@, version@)).len() <= 1,
                    feature_values(data.features@, feat@) == Some(texts(vals@)),
                    forall|j: int| 0 <= j < k ==> readable(#[trigger] texts(vals@)[j]),
                decreases vals.len() - k,
            {
                assert(texts(vals@)[k as int] == vals@[k as int]@);
                if !is_readable(&vals[k]) {
                    proof {
                        let list = feature_values(data.features@, feat@)->0;
                        assert(!readable(list[k as int]));
                    }
                    return false;
                }
                k += 1;
            }
            true
        },
        None => true,
    }
}

/// What the package of the feature `feat` of the version `version` of a crate demands:
/// the crate itself and what the feature turns on. A yanked version and one that has no
/// such feature cannot be used; `default` is a feature of every crate.
pub fn feature_dependencies(
    data: &VersionData,
    name: &String,
    compat: SemverCompatibility,
    feat: &String,
    version: &Version,
) -> (r: Dependencies)
    requires
        feature_is_readable(*data, name@, feat@, version@),
    ensures
        r@ == feature_answer(*data, name@, compat, feat@, version@),
{
    if data.yanked {
        return Dependencies::Unavailable("yanked".to_string());
    }
    let package = Names::BucketFeatures(name.clone(), compat, feat.clone());
    let mut deps = feature_base_constraints(data, name, feat, version);
    let ghost base = feature_base(*data, name@, feat@, version@);
    let ghost mut made = base;
    if deps.len() > 1 {
        return Dependencies::Available(deps);
    }
    match get_feature(&data.features, feat) {
        Some(vals) => {
            let mut k: usize = 0;
            proof {
                assert(made =~= base + values_demands(
                    texts(vals@).take(0),
                    data.deps@,
                    package@,
                    version@,
                ));
            }
            while k < vals.len()
                invariant
                    k <= vals.len(),
                            package@ == NamesView::BucketFeatures(name@, compat, feat@),
                    forall|j: int| 0 <= j < vals@.len() ==> readable(#[trigger] texts(vals@)[j]),
                    made == base + values_demands(
                        texts(vals@).take(k as int),
                        data.deps@,
                        package@,
                        version@,
                    ),
                    deps@ == combined(made),
                decreases vals.len() - k,
            {
                let val = &vals[k];
                proof {
                    assert(texts(vals@)[k as int] == val@);
                    assert(texts(vals@).take(k + 1).drop_last() =~= texts(vals@).take(k as int));
                    assert(texts(vals@).take(k + 1).last() == val@);
                }
                demand_value(&mut deps, val, &data.deps, &package, version, Ghost(made));
                proof {
                    made = made + value_demands(val@, data.deps@, package@, version@);
                    assert(made =~= base + values_demands(
                        texts(vals@).take(k + 1),
                        data.deps@,
                        package@,
                        version@,
                    ));
                }
                k += 1;
            }
            proof {
                assert(texts(vals@).take(k as int) =~= texts(vals@));
            }
            Dependencies::Available(deps)
        },
        None => {
            if *feat == "default".to_string() {
                // A list of default features would have been found.
                Dependencies::Available(deps)
            } else {
                Dependencies::Unavailable("no matching feat".to_string())
            }
        },
    }
}

/// The versions of the class of `version` that meet `req`.
fn narrow(req: &VersionReq, version: &Version) -> (r: VersionSet)
    ensures
        r@ == narrowed(req@, version@),
{
    let compat_range = VersionSet::from_compatibility(SemverCompatibility::of(version));
    let req_range = VersionSet::from_req(req);
    req_range.intersection(&compat_range)
}

/// What the package of a requirement on the crate `name` demands.
pub fn wide_dependencies(name: &String, req: &VersionReq, version: &Version) -> (r: Dependencies)
    ensures
        r@ == DependenciesView::Available(combined(wide_demands(name@, req@, version@))),
{
    let mut deps = DependencyConstraints::new();
    demand(
        &mut deps,
        new_bucket(name.clone(), SemverCompatibility::of(version), false),
        narrow(req, version),
        Ghost(Seq::empty()),
    );
    proof {
        assert(Seq::<Demand>::empty().push(wide_demands(name@, req@, version@)[0]) =~= wide_demands(
            name@,
            req@,
            version@,
        ));
    }
    Dependencies::Available(deps)
}

/// What the package of a feature under a requirement on the crate `name` demands.
pub fn wide_feature_dependencies(
    name: &String,
    req: &VersionReq,
    parent: &String,
    parent_compat: SemverCompatibility,
    feat: &String,
    version: &Version,
) -> (r: Dependencies)
    ensures
        r@ == DependenciesView::Available(
            combined(
                wide_feature_demands(name@, req@, parent@, parent_compat, feat@, version@),
            ),
        ),
{
    let ghost all = wide_feature_demands(name@, req@, parent@, parent_compat, feat@, version@);
    let mut deps = DependencyConstraints::new();
    demand(
        &mut deps,
        new_wide(name.clone(), req.clone(), parent.clone(), parent_compat),
        VersionSet::singleton(version.clone()),
        Ghost(Seq::empty()),
    );
    let bucket = new_bucket(name.clone(), SemverCompatibility::of(version), false);
    demand(
        &mut deps,
        bucket.with_features(feat.clone()),
        narrow(req, version),
        Ghost(Seq::empty().push(all[0])),
    );
    proof {
        assert(Seq::empty().push(all[0]).push(all[1]) =~= all);
    }
    Dependencies::Available(deps)
}

} // verus!
