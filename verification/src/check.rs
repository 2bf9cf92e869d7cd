//! Whether a selection of packages is one that can be built: an independent look at
//! what the resolver has found.

use vstd::prelude::*;
use crate::index_data::{Crates, Dependency, DependencyKind, VersionData};
use crate::names::{Names, NamesView};
use crate::provider::{answerable, Index, Pinned};
use crate::selection::SelectedDependencies;
use crate::version::{
    compatibility, requirement_matches, SemverCompatibility, Version, VersionView,
};
use crate::walk::{
    breaks_first, broken, chain, limit_first, surely_walked, usable, walkable, walked, DEPTH_LIMIT,
};

verus! {

/// The feature `feat` of the class `compat` of the crate `name` is selected.
pub open spec fn feature_selected(
    sel: Map<NamesView, VersionView>,
    name: Seq<char>,
    compat: SemverCompatibility,
    feat: Seq<char>,
) -> bool {
    sel.contains_key(NamesView::BucketFeatures(name, compat, feat))
}

/// Every crate has a version of the class under which it is selected.
pub open spec fn buckets_agree(sel: Map<NamesView, VersionView>) -> bool {
    forall|n: NamesView| #[trigger]
        sel.contains_key(n) ==> (n matches NamesView::Bucket(_, compat, _) ==> compat
            == compatibility(sel[n]))
}

/// Every feature has a version of the class under which it is selected.
pub open spec fn feature_class_agrees(sel: Map<NamesView, VersionView>, n: NamesView) -> bool {
    n matches NamesView::BucketFeatures(_, compat, _) ==> compat == compatibility(sel[n])
}

/// The crate that a feature belongs to.
pub open spec fn crate_of_feature(n: NamesView) -> NamesView {
    NamesView::Bucket(n.crate_name(), n->BucketFeatures_1, false)
}

/// Every feature has a version of the class under which it is selected, and its crate
/// has the same version.
pub open spec fn features_agree(sel: Map<NamesView, VersionView>) -> bool {
    forall|n: NamesView| #[trigger]
        sel.contains_key(n) && n is BucketFeatures ==> {
            &&& feature_class_agrees(sel, n)
            &&& sel.contains_key(crate_of_feature(n))
            &&& sel[crate_of_feature(n)] == sel[n]
        }
}

/// A crate that is selected because something depends on it.
pub open spec fn is_dependency(sel: Map<NamesView, VersionView>, n: NamesView) -> bool {
    sel.contains_key(n) && n is Bucket && !n.is_root()
}

/// What the index holds of a selected crate.
pub open spec fn selected_data(
    crates: Crates,
    sel: Map<NamesView, VersionView>,
    n: NamesView,
) -> VersionData {
    crates.lookup(n.crate_name(), sel[n])->0
}

/// The dependency counts for the crate `n`, with the features that are selected.
pub open spec fn needed(sel: Map<NamesView, VersionView>, n: NamesView, dep: Dependency) -> bool {
    &&& !(dep.kind is Dev)
    &&& dep.optional ==> feature_selected(sel, n.crate_name(), n->Bucket_1, dep.name@)
}

/// The selected crate `n` will do for the dependency: it is the crate that is meant, at
/// a version that meets the requirement, with the features that are wanted.
pub open spec fn will_do(sel: Map<NamesView, VersionView>, n: NamesView, dep: Dependency) -> bool {
    &&& n.crate_name() == dep.package_name@
    &&& requirement_matches(dep.req@, sel[n])
    &&& forall|i: int|
        0 <= i < dep.features@.len() ==> (#[trigger] dep.features@[i])@.len() == 0
            || feature_selected(sel, n.crate_name(), n->Bucket_1, dep.features@[i]@)
    &&& dep.default_features ==> feature_selected(sel, n.crate_name(), n->Bucket_1, "default"@)
}

/// Some selected crate will do for the dependency.
pub open spec fn fulfilled(sel: Map<NamesView, VersionView>, dep: Dependency) -> bool {
    exists|n: NamesView| #[trigger] is_dependency(sel, n) && will_do(sel, n, dep)
}

/// The selected crate `n` is not yanked, and each dependency that counts for it is
/// fulfilled.
pub open spec fn crate_holds(
    crates: Crates,
    sel: Map<NamesView, VersionView>,
    n: NamesView,
) -> bool {
    let data = selected_data(crates, sel, n);
    &&& !data.yanked
    &&& forall|i: int|
        0 <= i < data.deps@.len() && needed(sel, n, #[trigger] data.deps@[i]) ==> fulfilled(
            sel,
            data.deps@[i],
        )
}

/// The native library that a selected crate links.
pub open spec fn link_of(
    crates: Crates,
    sel: Map<NamesView, VersionView>,
    n: NamesView,
) -> Option<Seq<char>> {
    match selected_data(crates, sel, n).links {
        Some(link) => Some(link@),
        None => None,
    }
}

/// No two selected crates link the same native library.
pub open spec fn links_differ(crates: Crates, sel: Map<NamesView, VersionView>) -> bool {
    forall|a: NamesView, b: NamesView|
        #![trigger is_dependency(sel, a), is_dependency(sel, b)]
        is_dependency(sel, a) && is_dependency(sel, b) && a != b && link_of(crates, sel, a) is Some
            ==> link_of(crates, sel, a) != link_of(crates, sel, b)
}

/// The selection can be built.
pub open spec fn consistent(crates: Crates, sel: Map<NamesView, VersionView>) -> bool {
    &&& buckets_agree(sel)
    &&& features_agree(sel)
    &&& links_differ(crates, sel)
    &&& forall|n: NamesView| #[trigger] is_dependency(sel, n) ==> crate_holds(crates, sel, n)
}

/// The selection names nothing that is needed to look at it and that is missing: the
/// index can be asked for the packages on the way; the crate of each feature is
/// selected; and the index holds each selected crate. The last two are needed only
/// where the look gets that far.
pub open spec fn checkable(
    crates: Crates,
    sel: Map<NamesView, VersionView>,
    root: NamesView,
) -> bool {
    &&& walkable(crates, sel, root)
    &&& !breaks_first(crates, sel, root) && buckets_agree(sel) ==> {
        &&& forall|n: NamesView| #[trigger]
            sel.contains_key(n) && n is BucketFeatures && feature_class_agrees(sel, n)
                ==> sel.contains_key(crate_of_feature(n))
        &&& features_agree(sel) ==> forall|n: NamesView| #[trigger]
            is_dependency(sel, n) ==> crates.lookup(n.crate_name(), sel[n]) is Some
    }
}

/// Nothing that is selected is missing: the index can be asked for every selected
/// package, and the crate of each selected feature is selected.
pub open spec fn complete(crates: Crates, sel: Map<NamesView, VersionView>) -> bool {
    forall|n: NamesView| #[trigger]
        sel.contains_key(n) ==> answerable(crates, n, sel[n]) && (n is BucketFeatures
            ==> sel.contains_key(crate_of_feature(n)))
}

/// A selection from which nothing is missing can be looked at, whatever the root.
pub proof fn complete_is_checkable(
    crates: Crates,
    sel: Map<NamesView, VersionView>,
    root: NamesView,
)
    requires
        complete(crates, sel),
    ensures
        checkable(crates, sel, root),
{
    assert forall|n: NamesView| #[trigger] is_dependency(sel, n) implies crates.lookup(
        n.crate_name(),
        sel[n],
    ) is Some by {
        assert(sel.contains_key(n));
    }
}

/// Whether the feature `feat` of the class `compat` of the crate `name` is selected.
fn has_feature(
    pubmap: &SelectedDependencies,
    name: &String,
    compat: SemverCompatibility,
    feat: &String,
) -> (r: bool)
    ensures
        r == feature_selected(pubmap@, name@, compat, feat@),
{
    pubmap.get(&Names::BucketFeatures(name.clone(), compat, feat.clone())).is_some()
}

/// Whether the crate `name`, selected at `version`, will do for the dependency.
fn does(
    pubmap: &SelectedDependencies,
    name: &String,
    compat: SemverCompatibility,
    version: &Version,
    dep: &Dependency,
) -> (r: bool)
    requires
        pubmap@.contains_key(NamesView::Bucket(name@, compat, false)),
        pubmap@[NamesView::Bucket(name@, compat, false)] == version@,
    ensures
        r == will_do(pubmap@, NamesView::Bucket(name@, compat, false), *dep),
{
    if !(*name == dep.package_name) || !dep.req.matches(version) {
        return false;
    }
    let mut i: usize = 0;
    while i < dep.features.len()
        invariant
            i <= dep.features.len(),
            forall|j: int|
                0 <= j < i ==> (#[trigger] dep.features@[j])@.len() == 0 || feature_selected(
                    pubmap@,
                    name@,
                    compat,
                    dep.features@[j]@,
                ),
        decreases dep.features.len() - i,
    {
        let f = &dep.features[i];
        if !f.as_str().is_empty() && !has_feature(pubmap, name, compat, f) {
            assert(dep.features@[i as int]@ == f@);
            return false;
        }
        i += 1;
    }
    !dep.default_features || has_feature(pubmap, name, compat, &"default".to_string())
}

/// Whether some selected crate will do for the dependency.
fn is_fulfilled(pubmap: &SelectedDependencies, dep: &Dependency) -> (r: bool)
    ensures
        r == fulfilled(pubmap@, *dep),
{
    let list = pubmap.entries();
    let mut i: usize = 0;
    while i < list.len()
        invariant
            i <= list.len(),
            forall|j: int|
                0 <= j < list@.len() ==> pubmap@.contains_key((#[trigger] list@[j]).0@)
                    && pubmap@[list@[j].0@] == list@[j].1@,
            forall|j: int|
                0 <= j < i && is_dependency(pubmap@, (#[trigger] list@[j]).0@) ==> !will_do(
                    pubmap@,
                    list@[j].0@,
                    *dep,
                ),
        decreases list.len() - i,
    {
        if let Names::Bucket(name, compat, is_root) = &list[i].0 {
            if !*is_root && does(pubmap, name, *compat, &list[i].1, dep) {
                assert(is_dependency(pubmap@, list@[i as int].0@));
                return true;
            }
        }
        i += 1;
    }
    proof {
        assert forall|n: NamesView| #[trigger] is_dependency(pubmap@, n) implies !will_do(
            pubmap@,
            n,
            *dep,
        ) by {
            let j = choose|j: int| 0 <= j < list@.len() && (#[trigger] list@[j]).0@ == n;
            assert(is_dependency(pubmap@, list@[j].0@));
        }
    }
    false
}

/// Whether the selected crate, of which the index holds `data`, is not yanked and has
/// what it needs.
fn holds(
    pubmap: &SelectedDependencies,
    name: &String,
    compat: SemverCompatibility,
    data: &VersionData,
    Ghost(crates): Ghost<Crates>,
) -> (r: bool)
    requires
        *data == selected_data(crates, pubmap@, NamesView::Bucket(name@, compat, false)),
    ensures
        r == crate_holds(crates, pubmap@, NamesView::Bucket(name@, compat, false)),
{
    if data.yanked {
        return false;
    }
    let ghost n = NamesView::Bucket(name@, compat, false);
    let mut i: usize = 0;
    while i < data.deps.len()
        invariant
            i <= data.deps.len(),
            *data == selected_data(crates, pubmap@, n),
            n == NamesView::Bucket(name@, compat, false),
            forall|j: int|
                0 <= j < i && needed(pubmap@, n, #[trigger] data.deps@[j]) ==> fulfilled(
                    pubmap@,
                    data.deps@[j],
                ),
        decreases data.deps.len() - i,
    {
        let dep = &data.deps[i];
        let skip: bool = dep.kind == DependencyKind::Dev || (dep.optional && !has_feature(
            pubmap,
            name,
            compat,
            &dep.name,
        ));
        assert(skip == !needed(pubmap@, n, data.deps@[i as int]));
        if !skip && !is_fulfilled(pubmap, dep) {
            return false;
        }
        i += 1;
    }
    true
}

/// Whether a list of texts holds a text.
fn list_has(list: &Vec<&String>, s: &String) -> (r: bool)
    ensures
        r == exists|i: int| 0 <= i < list@.len() && (#[trigger] list@[i])@ == s@,
{
    let mut i: usize = 0;
    while i < list.len()
        invariant
            i <= list.len(),
            forall|j: int| 0 <= j < i ==> (#[trigger] list@[j])@ != s@,
        decreases list.len() - i,
    {
        if *list[i] == *s {
            assert(list@[i as int]@ == s@);
            return true;
        }
        i += 1;
    }
    false
}

/// Whether the classes of all selected crates fit their versions.
fn classes_fit(pubmap: &SelectedDependencies) -> (r: bool)
    ensures
        r == buckets_agree(pubmap@),
{
    let list = pubmap.entries();
    let mut i: usize = 0;
    while i < list.len()
        invariant
            i <= list.len(),
            forall|j: int|
                0 <= j < list@.len() ==> pubmap@.contains_key((#[trigger] list@[j]).0@)
                    && pubmap@[list@[j].0@] == list@[j].1@,
            forall|j: int|
                0 <= j < i ==> ((#[trigger] list@[j]).0@ matches NamesView::Bucket(_, compat, _)
                    ==> compat == compatibility(pubmap@[list@[j].0@])),
        decreases list.len() - i,
    {
        if let Names::Bucket(_, compat, _) = &list[i].0 {
            if *compat != SemverCompatibility::of(&list[i].1) {
                assert(pubmap@.contains_key(list@[i as int].0@));
                return false;
            }
        }
        i += 1;
    }
    proof {
        assert forall|n: NamesView| #[trigger] pubmap@.contains_key(n) implies (n matches
            NamesView::Bucket(_, compat, _) ==> compat == compatibility(pubmap@[n])) by {
            let j = choose|j: int| 0 <= j < list@.len() && (#[trigger] list@[j]).0@ == n;
            assert(list@[j].0@ == n);
        }
    }
    true
}

/// Whether all selected features fit their crates.
fn features_fit(pubmap: &SelectedDependencies) -> (r: bool)
    requires
        forall|n: NamesView| #[trigger]
            pubmap@.contains_key(n) && n is BucketFeatures && feature_class_agrees(pubmap@, n)
                ==> pubmap@.contains_key(crate_of_feature(n)),
    ensures
        r == features_agree(pubmap@),
{
    let list = pubmap.entries();
    let mut i: usize = 0;
    while i < list.len()
        invariant
            i <= list.len(),
            forall|n: NamesView| #[trigger]
                pubmap@.contains_key(n) && n is BucketFeatures && feature_class_agrees(pubmap@, n)
                    ==> pubmap@.contains_key(crate_of_feature(n)),
            forall|j: int|
                0 <= j < list@.len() ==> pubmap@.contains_key((#[trigger] list@[j]).0@)
                    && pubmap@[list@[j].0@] == list@[j].1@,
            forall|j: int|
                0 <= j < i && (#[trigger] list@[j]).0@ is BucketFeatures ==> {
                    &&& feature_class_agrees(pubmap@, list@[j].0@)
                    &&& pubmap@.contains_key(crate_of_feature(list@[j].0@))
                    &&& pubmap@[crate_of_feature(list@[j].0@)] == pubmap@[list@[j].0@]
                },
        decreases list.len() - i,
    {
        if let Names::BucketFeatures(name, compat, _) = &list[i].0 {
            let version = &list[i].1;
            assert(pubmap@.contains_key(list@[i as int].0@));
            if *compat != SemverCompatibility::of(version) {
                assert(!feature_class_agrees(pubmap@, list@[i as int].0@));
                return false;
            }
            let of_crate = pubmap.get(&Names::Bucket(name.clone(), *compat, false)).unwrap();
            if !of_crate.same(version) {
                return false;
            }
        }
        i += 1;
    }
    proof {
        assert forall|n: NamesView| #[trigger]
            pubmap@.contains_key(n) && n is BucketFeatures implies {
            &&& feature_class_agrees(pubmap@, n)
            &&& pubmap@.contains_key(crate_of_feature(n))
            &&& pubmap@[crate_of_feature(n)] == pubmap@[n]
        } by {
            let j = choose|j: int| 0 <= j < list@.len() && (#[trigger] list@[j]).0@ == n;
            assert(list@[j].0@ == n);
        }
    }
    true
}

impl<'c> Index<'c> {
    /// Whether no two selected crates link the same library and each of them has what
    /// it needs.
    fn crates_fit(&self, pubmap: &SelectedDependencies) -> (r: bool)
        requires
            forall|n: NamesView| #[trigger]
                is_dependency(pubmap@, n) ==> self.crates().lookup(n.crate_name(), pubmap@[n])
                    is Some,
        ensures
            r == (links_differ(self.crates(), pubmap@) && forall|n: NamesView| #[trigger]
                is_dependency(pubmap@, n) ==> crate_holds(self.crates(), pubmap@, n)),
    {
        let ghost sel = pubmap@;
        let ghost crates = self.crates();
        let list = pubmap.entries();
        let mut links: Vec<&'c String> = Vec::new();
        let ghost mut owners: Seq<int> = Seq::empty();
        let mut i: usize = 0;
        while i < list.len()
            invariant
                i <= list.len(),
                sel == pubmap@,
                crates == self.crates(),
                forall|n: NamesView| #[trigger]
                    is_dependency(sel, n) ==> crates.lookup(n.crate_name(), sel[n]) is Some,
                forall|j: int|
                    0 <= j < list@.len() ==> sel.contains_key((#[trigger] list@[j]).0@)
                        && sel[list@[j].0@] == list@[j].1@,
                forall|j: int, k: int|
                    #![trigger list@[j], list@[k]]
                    0 <= j < k < list@.len() ==> list@[j].0@ != list@[k].0@,
                forall|j: int|
                    0 <= j < i && is_dependency(sel, (#[trigger] list@[j]).0@) ==> crate_holds(
                        crates,
                        sel,
                        list@[j].0@,
                    ),
                forall|j: int, k: int|
                    #![trigger list@[j], list@[k]]
                    0 <= j < k < i && is_dependency(sel, list@[j].0@) && is_dependency(
                        sel,
                        list@[k].0@,
                    ) && link_of(crates, sel, list@[j].0@) is Some ==> link_of(
                        crates,
                        sel,
                        list@[j].0@,
                    ) != link_of(crates, sel, list@[k].0@),
                owners.len() == links@.len(),
                forall|t: int|
                    0 <= t < owners.len() ==> 0 <= (#[trigger] owners[t]) < i && is_dependency(
                        sel,
                        list@[owners[t]].0@,
                    ) && link_of(crates, sel, list@[owners[t]].0@) == Some(links@[t]@),
                forall|j: int|
                    0 <= j < i && is_dependency(sel, (#[trigger] list@[j]).0@) ==> (link_of(
                        crates,
                        sel,
                        list@[j].0@,
                    ) matches Some(link) ==> exists|t: int|
                        0 <= t < links@.len() && (#[trigger] links@[t])@ == link),
            decreases list.len() - i,
        {
            if let Names::Bucket(name, compat, is_root) = &list[i].0 {
                if !*is_root {
                    let ghost n = list@[i as int].0@;
                    assert(is_dependency(sel, n));
                    let data = self.get_version(name, &list[i].1).unwrap();
                    if let Some(link) = &data.links {
                        assert(link_of(crates, sel, n) == Some(link@));
                        if list_has(&links, link) {
                            proof {
                                let t = choose|t: int|
                                    0 <= t < links@.len() && (#[trigger] links@[t])@ == link@;
                                let j = owners[t];
                                assert(list@[j].0@ != list@[i as int].0@);
                                assert(is_dependency(sel, list@[j].0@));
                            }
                            return false;
                        }
                        let ghost links_before = links@;
                        links.push(link);
                        proof {
                            owners = owners.push(i as int);
                            assert(links@[links_before.len() as int]@ == link@);
                            assert forall|j: int|
                                0 <= j < i && is_dependency(sel, (
                                #[trigger] list@[j]).0@) implies (link_of(
                                crates,
                                sel,
                                list@[j].0@,
                            ) matches Some(other) ==> exists|t: int|
                                0 <= t < links@.len() && (#[trigger] links@[t])@ == other) by {
                                if let Some(other) = link_of(crates, sel, list@[j].0@) {
                                    let t = choose|t: int|
                                        0 <= t < links_before.len() && (
                                        #[trigger] links_before[t])@ == other;
                                    assert(links@[t]@ == other);
                                }
                            }
                        }
                    }
                    if !holds(pubmap, name, *compat, data, Ghost(crates)) {
                        return false;
                    }
                }
            }
            i += 1;
        }
        proof {
            assert forall|n: NamesView| #[trigger] is_dependency(sel, n) implies crate_holds(
                crates,
                sel,
                n,
            ) by {
                let j = choose|j: int| 0 <= j < list@.len() && (#[trigger] list@[j]).0@ == n;
                assert(is_dependency(sel, list@[j].0@));
            }
            assert forall|a: NamesView, b: NamesView|
                #![trigger is_dependency(sel, a), is_dependency(sel, b)]
                is_dependency(sel, a) && is_dependency(sel, b) && a != b && link_of(
                    crates,
                    sel,
                    a,
                ) is Some implies link_of(crates, sel, a) != link_of(crates, sel, b) by {
                let j = choose|j: int| 0 <= j < list@.len() && (#[trigger] list@[j]).0@ == a;
                let k = choose|k: int| 0 <= k < list@.len() && (#[trigger] list@[k]).0@ == b;
                if j < k {
                    assert(link_of(crates, sel, list@[j].0@) != link_of(crates, sel, list@[k].0@));
                } else {
                    assert(is_dependency(sel, list@[k].0@) && is_dependency(sel, list@[j].0@));
                }
            }
        }
        true
    }

    /// Whether nothing is missing from the selection, so that it can be looked at.
    pub fn can_check(&self, pubmap: &SelectedDependencies) -> (r: bool)
        ensures
            r == complete(self.crates(), pubmap@),
    {
        let list = pubmap.entries();
        let mut i: usize = 0;
        while i < list.len()
            invariant
                i <= list.len(),
                forall|j: int|
                    0 <= j < list@.len() ==> pubmap@.contains_key((#[trigger] list@[j]).0@)
                        && pubmap@[list@[j].0@] == list@[j].1@,
                forall|j: int|
                    0 <= j < i ==> answerable(
                        self.crates(),
                        (#[trigger] list@[j]).0@,
                        list@[j].1@,
                    ) && (list@[j].0@ is BucketFeatures ==> pubmap@.contains_key(
                        crate_of_feature(list@[j].0@),
                    )),
            decreases list.len() - i,
        {
            assert(pubmap@.contains_key(list@[i as int].0@));
            if !self.can_answer(&list[i].0, &list[i].1) {
                return false;
            }
            if let Names::BucketFeatures(name, compat, _) = &list[i].0 {
                if pubmap.get(&Names::Bucket(name.clone(), *compat, false)).is_none() {
                    return false;
                }
            }
            i += 1;
        }
        proof {
            assert forall|n: NamesView| #[trigger] pubmap@.contains_key(n) implies answerable(
                self.crates(),
                n,
                pubmap@[n],
            ) && (n is BucketFeatures ==> pubmap@.contains_key(crate_of_feature(n))) by {
                let j = choose|j: int| 0 <= j < list@.len() && (#[trigger] list@[j]).0@ == n;
                assert(list@[j].0@ == n);
            }
        }
        true
    }

    /// Whether the selection can be built. It cannot if the walk from the root comes to a
    /// package that is not selected or cannot be used, unless it goes beyond its limit
    /// before.
    #[must_use]
    pub fn check(&mut self, root: &Names, pubmap: &SelectedDependencies) -> (r: bool)
        requires
            checkable(old(self).crates(), pubmap@, root@),
        ensures
            final(self).crates() == old(self).crates(),
            final(self).calls() == old(self).calls(),
            old(self).recorded().subset_of(final(self).recorded()),
            forall|p: Pinned| #[trigger]
                final(self).recorded().contains(p) ==> old(self).recorded().contains(p) || walked(
                    old(self).crates(),
                    pubmap@,
                    root@,
                    p,
                ),
            forall|p: Pinned| #[trigger]
                surely_walked(old(self).crates(), pubmap@, root@, p)
                    ==> final(self).recorded().contains(p),
            r ==> consistent(old(self).crates(), pubmap@) && !breaks_first(
                old(self).crates(),
                pubmap@,
                root@,
            ),
            consistent(old(self).crates(), pubmap@) && (!broken(
                old(self).crates(),
                pubmap@,
                root@,
            ) || limit_first(old(self).crates(), pubmap@, root@)) ==> r,
            (exists|path: Seq<NamesView>| #[trigger]
                chain(old(self).crates(), pubmap@, root@, path) && path.len() <= DEPTH_LIMIT
                    && !usable(old(self).crates(), pubmap@, path.last())) ==> !r,
    {
        if self.depth(root, pubmap).is_none() {
            return false;
        }
        if !classes_fit(pubmap) {
            return false;
        }
        if !features_fit(pubmap) {
            return false;
        }
        self.crates_fit(pubmap)
    }
}

/// What passes the check can be built. Every crate has a version of the class under which it
/// is selected, and so has every feature, whose crate is selected at the same version. No
/// selected crate is yanked; for each of its dependencies that is not for development, and
/// not optional or turned on by the feature of its name, a crate of the right name is
/// selected at a version that meets the requirement, with the features that are asked for
/// and the default ones if they are; and no other links the same native library. The crate
/// that is resolved does not stand for a dependency.
pub proof fn what_passes_can_be_built(crates: Crates, sel: Map<NamesView, VersionView>)
    requires
        consistent(crates, sel),
    ensures
        forall|name: Seq<char>, c: SemverCompatibility, all: bool| #[trigger]
            sel.contains_key(NamesView::Bucket(name, c, all)) ==> compatibility(
                sel[NamesView::Bucket(name, c, all)],
            ) == c,
        forall|name: Seq<char>, c: SemverCompatibility, f: Seq<char>| #[trigger]
            sel.contains_key(NamesView::BucketFeatures(name, c, f)) ==> compatibility(
                sel[NamesView::BucketFeatures(name, c, f)],
            ) == c && sel.contains_key(NamesView::Bucket(name, c, false))
                && sel[NamesView::Bucket(name, c, false)] == sel[NamesView::BucketFeatures(
                name,
                c,
                f,
            )],
        forall|name: Seq<char>, c: SemverCompatibility| #[trigger]
            sel.contains_key(NamesView::Bucket(name, c, false)) ==> !crates.lookup(
                name,
                sel[NamesView::Bucket(name, c, false)],
            )->0.yanked,
        forall|name: Seq<char>, c: SemverCompatibility, i: int|
            #![trigger crates.lookup(name, sel[NamesView::Bucket(name, c, false)])->0.deps@[i]]
            ({
                let deps = crates.lookup(name, sel[NamesView::Bucket(name, c, false)])->0.deps@;
                let dep = deps[i];
                sel.contains_key(NamesView::Bucket(name, c, false)) && 0 <= i < deps.len() && !(
                dep.kind is Dev) && (dep.optional ==> sel.contains_key(
                    NamesView::BucketFeatures(name, c, dep.name@),
                )) ==> exists|k: SemverCompatibility| #[trigger]
                    sel.contains_key(NamesView::Bucket(dep.package_name@, k, false))
                        && requirement_matches(
                        dep.req@,
                        sel[NamesView::Bucket(dep.package_name@, k, false)],
                    ) && (dep.default_features ==> sel.contains_key(
                        NamesView::BucketFeatures(dep.package_name@, k, "default"@),
                    )) && (forall|j: int|
                        0 <= j < dep.features@.len() && (#[trigger] dep.features@[j])@.len() > 0
                            ==> sel.contains_key(
                            NamesView::BucketFeatures(dep.package_name@, k, dep.features@[j]@),
                        ))
            }),
        forall|
            name_a: Seq<char>,
            a: SemverCompatibility,
            name_b: Seq<char>,
            b: SemverCompatibility,
        |
            #![trigger sel.contains_key(NamesView::Bucket(name_a, a, false)), sel.contains_key(NamesView::Bucket(name_b, b, false))]
            ({
                let link_a = crates.lookup(
                    name_a,
                    sel[NamesView::Bucket(name_a, a, false)],
                )->0.links;
                let link_b = crates.lookup(
                    name_b,
                    sel[NamesView::Bucket(name_b, b, false)],
                )->0.links;
                sel.contains_key(NamesView::Bucket(name_a, a, false)) && sel.contains_key(
                    NamesView::Bucket(name_b, b, false),
                ) && !(name_a == name_b && a == b) && link_a is Some && link_b is Some
                    ==> link_a->0@ != link_b->0@
            }),
{
    assert forall|name: Seq<char>, c: SemverCompatibility, i: int|
        #![trigger crates.lookup(name, sel[NamesView::Bucket(name, c, false)])->0.deps@[i]]
        ({
            let deps = crates.lookup(name, sel[NamesView::Bucket(name, c, false)])->0.deps@;
            let dep = deps[i];
            sel.contains_key(NamesView::Bucket(name, c, false)) && 0 <= i < deps.len() && !(
            dep.kind is Dev) && (dep.optional ==> sel.contains_key(
                NamesView::BucketFeatures(name, c, dep.name@),
            ))
        }) implies ({
        let dep = crates.lookup(name, sel[NamesView::Bucket(name, c, false)])->0.deps@[i];
        exists|k: SemverCompatibility| #[trigger]
            sel.contains_key(NamesView::Bucket(dep.package_name@, k, false)) && requirement_matches(
                dep.req@,
                sel[NamesView::Bucket(dep.package_name@, k, false)],
            ) && (dep.default_features ==> sel.contains_key(
                NamesView::BucketFeatures(dep.package_name@, k, "default"@),
            )) && (forall|j: int|
                0 <= j < dep.features@.len() && (#[trigger] dep.features@[j])@.len() > 0
                    ==> sel.contains_key(
                    NamesView::BucketFeatures(dep.package_name@, k, dep.features@[j]@),
                ))
    }) by {
        let n = NamesView::Bucket(name, c, false);
        let dep = crates.lookup(name, sel[n])->0.deps@[i];
        assert(is_dependency(sel, n));
        assert(crate_holds(crates, sel, n));
        assert(selected_data(crates, sel, n).deps@[i] == dep);
        assert(needed(sel, n, dep));
        let m = choose|m: NamesView| #[trigger] is_dependency(sel, m) && will_do(sel, m, dep);
        let k = m->Bucket_1;
        assert(m == NamesView::Bucket(dep.package_name@, k, false));
        assert(sel.contains_key(NamesView::Bucket(dep.package_name@, k, false)));
    }
    assert forall|name: Seq<char>, c: SemverCompatibility| #[trigger]
        sel.contains_key(NamesView::Bucket(name, c, false)) implies !crates.lookup(
        name,
        sel[NamesView::Bucket(name, c, false)],
    )->0.yanked by {
        assert(is_dependency(sel, NamesView::Bucket(name, c, false)));
    }
    assert forall|
        name_a: Seq<char>,
        a: SemverCompatibility,
        name_b: Seq<char>,
        b: SemverCompatibility,
    |
        #![trigger sel.contains_key(NamesView::Bucket(name_a, a, false)), sel.contains_key(NamesView::Bucket(name_b, b, false))]
        ({
            let link_a = crates.lookup(name_a, sel[NamesView::Bucket(name_a, a, false)])->0.links;
            let link_b = crates.lookup(name_b, sel[NamesView::Bucket(name_b, b, false)])->0.links;
            sel.contains_key(NamesView::Bucket(name_a, a, false)) && sel.contains_key(
                NamesView::Bucket(name_b, b, false),
            ) && !(name_a == name_b && a == b) && link_a is Some && link_b is Some
        }) implies crates.lookup(name_a, sel[NamesView::Bucket(name_a, a, false)])->0.links->0@
        != crates.lookup(name_b, sel[NamesView::Bucket(name_b, b, false)])->0.links->0@ by {
        let (x, y) = (NamesView::Bucket(name_a, a, false), NamesView::Bucket(name_b, b, false));
        assert(is_dependency(sel, x) && is_dependency(sel, y));
        assert(link_of(crates, sel, x) != link_of(crates, sel, y));
    }
    assert forall|name: Seq<char>, c: SemverCompatibility, f: Seq<char>| #[trigger]
        sel.contains_key(NamesView::BucketFeatures(name, c, f)) implies compatibility(
        sel[NamesView::BucketFeatures(name, c, f)],
    ) == c && sel.contains_key(NamesView::Bucket(name, c, false))
        && sel[NamesView::Bucket(name, c, false)] == sel[NamesView::BucketFeatures(name, c, f)] by {
        let n = NamesView::BucketFeatures(name, c, f);
        assert(crate_of_feature(n) == NamesView::Bucket(name, c, false));
        assert(feature_class_agrees(sel, n));
    }
}

/// What can be built passes the check, if the walk does not break: nothing more is asked of
/// a selection than that its crates and features have versions of their classes, a feature
/// has its crate at the same version, no crate is yanked, what crates depend on is there, and
/// no two of them link one native library.
pub proof fn what_can_be_built_passes(crates: Crates, sel: Map<NamesView, VersionView>)
    requires
        forall|name: Seq<char>, c: SemverCompatibility, all: bool| #[trigger]
            sel.contains_key(NamesView::Bucket(name, c, all)) ==> compatibility(
                sel[NamesView::Bucket(name, c, all)],
            ) == c,
        forall|name: Seq<char>, c: SemverCompatibility, f: Seq<char>| #[trigger]
            sel.contains_key(NamesView::BucketFeatures(name, c, f)) ==> compatibility(
                sel[NamesView::BucketFeatures(name, c, f)],
            ) == c && sel.contains_key(NamesView::Bucket(name, c, false))
                && sel[NamesView::Bucket(name, c, false)] == sel[NamesView::BucketFeatures(
                name,
                c,
                f,
            )],
        forall|name: Seq<char>, c: SemverCompatibility| #[trigger]
            sel.contains_key(NamesView::Bucket(name, c, false)) ==> !crates.lookup(
                name,
                sel[NamesView::Bucket(name, c, false)],
            )->0.yanked,
        forall|name: Seq<char>, c: SemverCompatibility, i: int|
            #![trigger crates.lookup(name, sel[NamesView::Bucket(name, c, false)])->0.deps@[i]]
            ({
                let deps = crates.lookup(name, sel[NamesView::Bucket(name, c, false)])->0.deps@;
                let dep = deps[i];
                sel.contains_key(NamesView::Bucket(name, c, false)) && 0 <= i < deps.len() && !(
                dep.kind is Dev) && (dep.optional ==> sel.contains_key(
                    NamesView::BucketFeatures(name, c, dep.name@),
                )) ==> exists|k: SemverCompatibility| #[trigger]
                    sel.contains_key(NamesView::Bucket(dep.package_name@, k, false))
                        && requirement_matches(
                        dep.req@,
                        sel[NamesView::Bucket(dep.package_name@, k, false)],
                    ) && (dep.default_features ==> sel.contains_key(
                        NamesView::BucketFeatures(dep.package_name@, k, "default"@),
                    )) && (forall|j: int|
                        0 <= j < dep.features@.len() && (#[trigger] dep.features@[j])@.len() > 0
                            ==> sel.contains_key(
                            NamesView::BucketFeatures(dep.package_name@, k, dep.features@[j]@),
                        ))
            }),
        forall|
            name_a: Seq<char>,
            a: SemverCompatibility,
            name_b: Seq<char>,
            b: SemverCompatibility,
        |
            #![trigger sel.contains_key(NamesView::Bucket(name_a, a, false)), sel.contains_key(NamesView::Bucket(name_b, b, false))]
            ({
                let link_a = crates.lookup(
                    name_a,
                    sel[NamesView::Bucket(name_a, a, false)],
                )->0.links;
                let link_b = crates.lookup(
                    name_b,
                    sel[NamesView::Bucket(name_b, b, false)],
                )->0.links;
                sel.contains_key(NamesView::Bucket(name_a, a, false)) && sel.contains_key(
                    NamesView::Bucket(name_b, b, false),
                ) && !(name_a == name_b && a == b) && link_a is Some && link_b is Some
                    ==> link_a->0@ != link_b->0@
            }),
    ensures
        consistent(crates, sel),
{
    assert forall|n: NamesView| #[trigger] sel.contains_key(n) implies (n matches
        NamesView::Bucket(_, compat, _) ==> compat == compatibility(sel[n])) by {
        if let NamesView::Bucket(name, c, all) = n {
            assert(sel.contains_key(NamesView::Bucket(name, c, all)));
        }
    }
    assert forall|n: NamesView| #[trigger] sel.contains_key(n) && n is BucketFeatures implies {
        &&& feature_class_agrees(sel, n)
        &&& sel.contains_key(crate_of_feature(n))
        &&& sel[crate_of_feature(n)] == sel[n]
    } by {
        if let NamesView::BucketFeatures(name, c, f) = n {
            assert(sel.contains_key(NamesView::BucketFeatures(name, c, f)));
        }
    }
    assert forall|a: NamesView, b: NamesView|
        #![trigger is_dependency(sel, a), is_dependency(sel, b)]
        is_dependency(sel, a) && is_dependency(sel, b) && a != b && link_of(crates, sel, a)
            is Some implies link_of(crates, sel, a) != link_of(crates, sel, b) by {
        let (name_a, x) = (a->Bucket_0, a->Bucket_1);
        let (name_b, y) = (b->Bucket_0, b->Bucket_1);
        assert(a == NamesView::Bucket(name_a, x, false));
        assert(b == NamesView::Bucket(name_b, y, false));
        assert(sel.contains_key(NamesView::Bucket(name_a, x, false)) && sel.contains_key(
            NamesView::Bucket(name_b, y, false),
        ));
    }
    assert forall|n: NamesView| #[trigger] is_dependency(sel, n) implies crate_holds(
        crates,
        sel,
        n,
    ) by {
        let (name, c) = (n->Bucket_0, n->Bucket_1);
        assert(n == NamesView::Bucket(name, c, false));
        assert(sel.contains_key(NamesView::Bucket(name, c, false)));
        let data = selected_data(crates, sel, n);
        assert forall|i: int|
            0 <= i < data.deps@.len() && needed(sel, n, #[trigger] data.deps@[i]) implies fulfilled(
            sel,
            data.deps@[i],
        ) by {
            let dep = crates.lookup(name, sel[NamesView::Bucket(name, c, false)])->0.deps@[i];
            let k = choose|k: SemverCompatibility| #[trigger]
                sel.contains_key(NamesView::Bucket(dep.package_name@, k, false))
                    && requirement_matches(
                    dep.req@,
                    sel[NamesView::Bucket(dep.package_name@, k, false)],
                ) && (dep.default_features ==> sel.contains_key(
                    NamesView::BucketFeatures(dep.package_name@, k, "default"@),
                )) && (forall|j: int|
                    0 <= j < dep.features@.len() && (#[trigger] dep.features@[j])@.len() > 0
                        ==> sel.contains_key(
                        NamesView::BucketFeatures(dep.package_name@, k, dep.features@[j]@),
                    ));
            let m = NamesView::Bucket(dep.package_name@, k, false);
            assert(is_dependency(sel, m));
            assert(will_do(sel, m, dep));
        }
    }
}

/// Nothing is missing from a selection if and only if the index can be asked for each of its
/// packages and each of its features comes with the crate.
pub proof fn what_is_complete(crates: Crates, sel: Map<NamesView, VersionView>)
    ensures
        complete(crates, sel) <==> {
            &&& forall|n: NamesView| #[trigger]
                sel.contains_key(n) ==> answerable(crates, n, sel[n])
            &&& forall|name: Seq<char>, c: SemverCompatibility, f: Seq<char>| #[trigger]
                sel.contains_key(NamesView::BucketFeatures(name, c, f)) ==> sel.contains_key(
                    NamesView::Bucket(name, c, false),
                )
        },
{
    if complete(crates, sel) {
        assert forall|name: Seq<char>, c: SemverCompatibility, f: Seq<char>| #[trigger]
            sel.contains_key(NamesView::BucketFeatures(name, c, f)) implies sel.contains_key(
            NamesView::Bucket(name, c, false),
        ) by {
            let n = NamesView::BucketFeatures(name, c, f);
            assert(crate_of_feature(n) == NamesView::Bucket(name, c, false));
        }
    }
}

/// What has to be there for the walk and for the check: the index has to tell of each selected
/// package to which the walk can come what it demands. Where the walk breaks first, that is
/// all; and in any case it is enough that each feature comes with its crate and the index
/// holds each selected crate.
pub proof fn what_has_to_be_there(
    crates: Crates,
    sel: Map<NamesView, VersionView>,
    root: NamesView,
)
    ensures
        walkable(crates, sel, root) <==> forall|n: NamesView| #[trigger]
            sel.contains_key(n) && walked(crates, sel, root, (n, sel[n])) ==> answerable(
                crates,
                n,
                sel[n],
            ),
        walkable(crates, sel, root) && breaks_first(crates, sel, root) ==> checkable(
            crates,
            sel,
            root,
        ),
        walkable(crates, sel, root) && (forall|
            name: Seq<char>,
            c: SemverCompatibility,
            f: Seq<char>,
        | #[trigger]
            sel.contains_key(NamesView::BucketFeatures(name, c, f)) ==> sel.contains_key(
                NamesView::Bucket(name, c, false),
            )) && (forall|name: Seq<char>, c: SemverCompatibility| #[trigger]
            sel.contains_key(NamesView::Bucket(name, c, false)) ==> crates.lookup(
                name,
                sel[NamesView::Bucket(name, c, false)],
            ) is Some) ==> checkable(crates, sel, root),
{
    if forall|n: NamesView| #[trigger]
        sel.contains_key(n) && walked(crates, sel, root, (n, sel[n])) ==> answerable(
            crates,
            n,
            sel[n],
        ) {
        assert forall|p: Pinned| #[trigger] walked(crates, sel, root, p) implies answerable(
            crates,
            p.0,
            p.1,
        ) by {
            assert(p == (p.0, sel[p.0]));
            assert(sel.contains_key(p.0));
        }
    }
    if walkable(crates, sel, root) && (forall|
        name: Seq<char>,
        c: SemverCompatibility,
        f: Seq<char>,
    | #[trigger]
        sel.contains_key(NamesView::BucketFeatures(name, c, f)) ==> sel.contains_key(
            NamesView::Bucket(name, c, false),
        )) && (forall|name: Seq<char>, c: SemverCompatibility| #[trigger]
        sel.contains_key(NamesView::Bucket(name, c, false)) ==> crates.lookup(
            name,
            sel[NamesView::Bucket(name, c, false)],
        ) is Some) {
        assert forall|n: NamesView| #[trigger]
            sel.contains_key(n) && n is BucketFeatures implies sel.contains_key(
            crate_of_feature(n),
        ) by {
            let (name, c, f) = (
                n->BucketFeatures_0,
                n->BucketFeatures_1,
                n->BucketFeatures_2,
            );
            assert(n == NamesView::BucketFeatures(name, c, f));
            assert(sel.contains_key(NamesView::BucketFeatures(name, c, f)));
        }
        assert forall|n: NamesView| #[trigger] is_dependency(sel, n) implies crates.lookup(
            n.crate_name(),
            sel[n],
        ) is Some by {
            let (name, c) = (n->Bucket_0, n->Bucket_1);
            assert(n == NamesView::Bucket(name, c, false));
            assert(sel.contains_key(NamesView::Bucket(name, c, false)));
        }
    }
}

} // verus!
