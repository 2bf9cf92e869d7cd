//! Choosing among versions: which ones a package can have, which of them is taken, and
//! how many there are.

use vstd::prelude::*;
use crate::index_data::{find, lemma_find, Crates, VersionData};
use crate::names::NamesView;
use crate::version::{
    canonical_belongs_to_its_class, compatibility, requirement_matches, version_before,
    SemverCompatibility, Version, VersionView,
};

verus! {

/// An end of a range of versions.
#[derive(Debug)]
pub enum Bound {
    Included(Version),
    Excluded(Version),
    Unbounded,
}

/// The versions of a crate from the highest to the lowest.
pub open spec fn descending(list: Seq<VersionData>) -> Seq<VersionView> {
    list.map_values(|d: VersionData| d.vers@).reverse()
}

/// The classes of those versions that meet the requirement, in the same order.
pub open spec fn classes_meeting(versions: Seq<VersionView>, req: Seq<char>) -> Seq<
    SemverCompatibility,
> {
    versions.filter(|v: VersionView| requirement_matches(req, v)).map_values(
        |v: VersionView| compatibility(v),
    )
}

/// The list without the entries that repeat the one before them.
pub open spec fn without_repeats(list: Seq<SemverCompatibility>) -> Seq<SemverCompatibility>
    decreases list.len(),
{
    if list.len() == 0 {
        list
    } else if list.len() > 1 && list[list.len() - 2] == list.last() {
        without_repeats(list.drop_last())
    } else {
        without_repeats(list.drop_last()).push(list.last())
    }
}

/// The first entry for which `p` holds.
pub open spec fn first_with(list: Seq<VersionView>, p: spec_fn(VersionView) -> bool) -> Option<
    VersionView,
>
    decreases list.len(),
{
    if list.len() == 0 {
        None
    } else if p(list[0]) {
        Some(list[0])
    } else {
        first_with(list.skip(1), p)
    }
}

/// The canonical versions of a list of classes.
pub open spec fn canonical_versions(list: Seq<SemverCompatibility>) -> Seq<VersionView> {
    list.map_values(|c: SemverCompatibility| c.canonical_view())
}

/// The versions that a package can have, the one to be preferred first.
pub open spec fn candidates(crates: Crates, package: NamesView) -> Seq<VersionView> {
    let versions = descending(crates.versions(package.crate_name()));
    match package {
        NamesView::Links(_) => Seq::empty(),
        NamesView::Wide(_, req, _, _) => canonical_versions(classes_meeting(versions, req)),
        NamesView::WideFeatures(_, req, _, _, _) => canonical_versions(
            classes_meeting(versions, req),
        ),
        _ => versions,
    }
}

/// The versions that are counted to tell how urgent a package is: one for each class
/// of a requirement, and otherwise the versions that it can have.
pub open spec fn counted(crates: Crates, package: NamesView) -> Seq<VersionView> {
    let versions = descending(crates.versions(package.crate_name()));
    match package {
        NamesView::Wide(_, req, _, _) => canonical_versions(
            without_repeats(classes_meeting(versions, req)),
        ),
        NamesView::WideFeatures(_, req, _, _, _) => canonical_versions(
            without_repeats(classes_meeting(versions, req)),
        ),
        _ => candidates(crates, package),
    }
}

/// The function tells of every version whether `p` holds of it.
pub open spec fn decides<F: Fn(&Version) -> bool>(contains: F, p: spec_fn(VersionView) -> bool) -> bool {
    forall|v: &Version, b: bool| call_ensures(contains, (v,), b) ==> b == p(v@)
}

/// What is listed for the first `i + 1` versions, from what is listed for the first `i`.
pub proof fn lemma_classes_meeting(versions: Seq<VersionView>, req: Seq<char>, i: int)
    requires
        0 <= i < versions.len(),
    ensures
        classes_meeting(versions.take(i + 1), req) == if requirement_matches(req, versions[i]) {
            classes_meeting(versions.take(i), req).push(compatibility(versions[i]))
        } else {
            classes_meeting(versions.take(i), req)
        },
{
    let more = versions.take(i + 1);
    assert(more.drop_last() =~= versions.take(i));
    reveal(Seq::filter);
    assert(classes_meeting(more, req) =~= if requirement_matches(req, versions[i]) {
        classes_meeting(versions.take(i), req).push(compatibility(versions[i]))
    } else {
        classes_meeting(versions.take(i), req)
    });
}

/// What the first entry with `p` is.
pub proof fn lemma_first_with(list: Seq<VersionView>, p: spec_fn(VersionView) -> bool)
    ensures
        match first_with(list, p) {
            Some(v) => exists|i: int|
                0 <= i < list.len() && #[trigger] list[i] == v && p(v) && (forall|j: int|
                    0 <= j < i ==> !p(#[trigger] list[j])),
            None => forall|i: int| 0 <= i < list.len() ==> !p(#[trigger] list[i]),
        },
    decreases list.len(),
{
    if list.len() > 0 && !p(list[0]) {
        let rest = list.skip(1);
        lemma_first_with(rest, p);
        match first_with(rest, p) {
            Some(v) => {
                let i = choose|i: int|
                    0 <= i < rest.len() && #[trigger] rest[i] == v && p(v) && (forall|j: int|
                        0 <= j < i ==> !p(#[trigger] rest[j]));
                assert(list[i + 1] == v);
                assert forall|j: int| 0 <= j < i + 1 implies !p(#[trigger] list[j]) by {
                    if j > 0 {
                        assert(rest[j - 1] == list[j]);
                    }
                }
            },
            None => {
                assert forall|i: int| 0 <= i < list.len() implies !p(#[trigger] list[i]) by {
                    if i > 0 {
                        assert(rest[i - 1] == list[i]);
                    }
                }
            },
        }
    }
}

/// The first entry of the list that `contains` accepts.
pub fn choose_from<F: Fn(&Version) -> bool>(list: &Vec<Version>, contains: F) -> (r: Option<Version>)
    requires
        forall|v: &Version| call_requires(contains, (v,)),
    ensures
        r matches Some(c) ==> list@.map_values(|v: Version| v@).contains(c@) && call_ensures(
            contains,
            (&c,),
            true,
        ),
        forall|p: spec_fn(VersionView) -> bool| #[trigger]
            decides(contains, p) ==> match r {
                Some(c) => first_with(list@.map_values(|v: Version| v@), p) == Some(c@),
                None => first_with(list@.map_values(|v: Version| v@), p) is None,
            },
{
    let ghost views = list@.map_values(|v: Version| v@);
    let mut i: usize = 0;
    while i < list.len()
        invariant
            i <= list.len(),
            views == list@.map_values(|v: Version| v@),
            forall|v: &Version| call_requires(contains, (v,)),
            forall|p: spec_fn(VersionView) -> bool, j: int|
                #![trigger decides(contains, p), views[j]]
                decides(contains, p) && 0 <= j < i ==> !p(views[j]),
        decreases list.len() - i,
    {
        let taken: bool = contains(&list[i]);
        assert(views[i as int] == list@[i as int]@);
        if taken {
            let c: Version = list[i].clone();
            proof {
                assert forall|p: spec_fn(VersionView) -> bool| #[trigger]
                    decides(contains, p) implies first_with(views, p) == Some(c@) by {
                    assert(p(views[i as int]));
                    lemma_first_with(views, p);
                    match first_with(views, p) {
                        Some(v) => {
                            let k = choose|k: int|
                                0 <= k < views.len() && #[trigger] views[k] == v && p(v) && (
                                forall|j: int| 0 <= j < k ==> !p(#[trigger] views[j]));
                            if k < i {
                                assert(!p(views[k]));
                            }
                        },
                        None => {},
                    }
                }
            }
            return Some(c);
        }
        i += 1;
    }
    proof {
        assert forall|p: spec_fn(VersionView) -> bool| #[trigger]
            decides(contains, p) implies first_with(views, p) is None by {
            lemma_first_with(views, p);
            if let Some(v) = first_with(views, p) {
                let k = choose|k: int| 0 <= k < views.len() && #[trigger] views[k] == v && p(v);
                assert(!p(views[k]));
            }
        }
    }
    None
}

/// How many entries of the list `contains` accepts.
pub fn count_in<F: Fn(&Version) -> bool>(list: &Vec<Version>, contains: F) -> (r: usize)
    requires
        forall|v: &Version| call_requires(contains, (v,)),
    ensures
        r <= list.len(),
        forall|p: spec_fn(VersionView) -> bool| #[trigger]
            decides(contains, p) ==> r == list@.map_values(|v: Version| v@).filter(p).len(),
{
    let ghost views = list@.map_values(|v: Version| v@);
    let mut n: usize = 0;
    let mut i: usize = 0;
    proof {
        reveal(Seq::filter);
    }
    while i < list.len()
        invariant
            n <= i <= list.len(),
            views == list@.map_values(|v: Version| v@),
            forall|v: &Version| call_requires(contains, (v,)),
            forall|p: spec_fn(VersionView) -> bool| #[trigger]
                decides(contains, p) ==> n == views.take(i as int).filter(p).len(),
        decreases list.len() - i,
    {
        let taken: bool = contains(&list[i]);
        let ghost before = n;
        if taken {
            n += 1;
        }
        proof {
            assert(views[i as int] == list@[i as int]@);
            assert forall|p: spec_fn(VersionView) -> bool| #[trigger]
                decides(contains, p) implies n == views.take(i + 1).filter(p).len() by {
                assert(views.take(i + 1).drop_last() =~= views.take(i as int));
                assert(views.take(i + 1).last() == views[i as int]);
                assert(p(views[i as int]) == taken);
                reveal(Seq::filter);
            }
        }
        i += 1;
    }
    assert(views.take(i as int) =~= views);
    n
}

/// The list without the entries that repeat the one before them.
pub fn drop_repeats(list: &Vec<SemverCompatibility>) -> (r: Vec<SemverCompatibility>)
    ensures
        r@ == without_repeats(list@),
{
    let mut r: Vec<SemverCompatibility> = Vec::new();
    let mut i: usize = 0;
    while i < list.len()
        invariant
            i <= list.len(),
            r@ == without_repeats(list@.take(i as int)),
        decreases list.len() - i,
    {
        proof {
            assert(list@.take(i + 1).drop_last() =~= list@.take(i as int));
        }
        if i == 0 || list[i - 1] != list[i] {
            r.push(list[i]);
        }
        i += 1;
    }
    assert(list@.take(i as int) =~= list@);
    r
}

/// The canonical versions of a list of classes.
pub fn canonical_classes(list: &Vec<SemverCompatibility>) -> (r: Vec<Version>)
    ensures
        r@.map_values(|v: Version| v@) == canonical_versions(list@),
{
    let ghost want = canonical_versions(list@);
    let mut r: Vec<Version> = Vec::new();
    let mut i: usize = 0;
    while i < list.len()
        invariant
            i <= list.len(),
            want == canonical_versions(list@),
            r@.map_values(|v: Version| v@) == want.take(i as int),
        decreases list.len() - i,
    {
        let ghost before = r@;
        r.push(list[i].canonical());
        proof {
            assert(r@.map_values(|v: Version| v@) =~= before.map_values(|v: Version| v@).push(
                want[i as int],
            ));
            assert(want.take(i + 1) =~= want.take(i as int).push(want[i as int]));
        }
        i += 1;
    }
    assert(want.take(i as int) =~= want);
    r
}

/// Something is among what a filter lets through if and only if it is in the list and
/// passes.
proof fn lemma_filter_contains<A>(list: Seq<A>, p: spec_fn(A) -> bool, x: A)
    ensures
        list.filter(p).contains(x) == (list.contains(x) && p(x)),
{
    if list.filter(p).contains(x) {
        list.lemma_filter_contains_rev(p, x);
        let i = choose|i: int| 0 <= i < list.filter(p).len() && list.filter(p)[i] == x;
        list.lemma_filter_pred(p, i);
    }
    if list.contains(x) && p(x) {
        let i = choose|i: int| 0 <= i < list.len() && list[i] == x;
        list.lemma_filter_contains(p, i);
    }
}

/// The first entry with `p` exists if and only if the filter lets something through.
proof fn lemma_first_and_filter(list: Seq<VersionView>, p: spec_fn(VersionView) -> bool)
    ensures
        first_with(list, p) is Some <==> list.filter(p).len() > 0,
        first_with(list, p) is Some <==> exists|x: VersionView| #[trigger] list.contains(x) && p(x),
{
    lemma_first_with(list, p);
    match first_with(list, p) {
        Some(v) => {
            assert(list.contains(v));
            lemma_filter_contains(list, p, v);
        },
        None => {
            assert forall|x: VersionView| #[trigger] list.contains(x) implies !p(x) by {
                let i = choose|i: int| 0 <= i < list.len() && list[i] == x;
                assert(!p(list[i]));
            }
            if list.filter(p).len() > 0 {
                let x = list.filter(p)[0];
                assert(list.filter(p).contains(x));
                lemma_filter_contains(list, p, x);
            }
        },
    }
}

/// The versions of a crate are those that the index holds of it.
proof fn lemma_descending_contains(list: Seq<VersionData>, v: VersionView)
    ensures
        descending(list).contains(v) == (find(list, v) is Some),
{
    lemma_find(list, v);
    let versions = descending(list);
    if versions.contains(v) {
        let i = choose|i: int| 0 <= i < versions.len() && versions[i] == v;
        assert(list[list.len() - 1 - i].vers@ == v);
    }
    if find(list, v) is Some {
        let i = choose|i: int| 0 <= i < list.len() && (#[trigger] list[i]).vers@ == v;
        assert(versions[list.len() - 1 - i] == v);
    }
}

/// A crate, or a feature of one, gets the highest version of the index that will do; it
/// gets none only if none will do.
pub proof fn the_highest_version_is_chosen(
    crates: Crates,
    package: NamesView,
    p: spec_fn(VersionView) -> bool,
)
    requires
        crates.wf(),
        package is Bucket || package is BucketFeatures,
    ensures
        match first_with(candidates(crates, package), p) {
            Some(v) => crates.lookup(package.crate_name(), v) is Some && p(v) && forall|
                w: VersionView,
            |
                (#[trigger] crates.lookup(package.crate_name(), w)) is Some && p(w) && w != v
                    ==> version_before(w, v),
            None => forall|w: VersionView|
                (#[trigger] crates.lookup(package.crate_name(), w)) is Some ==> !p(w),
        },
{
    let list = crates.versions(package.crate_name());
    let versions = descending(list);
    crates.versions_ascend(package.crate_name());
    lemma_first_with(versions, p);
    match first_with(versions, p) {
        Some(v) => {
            let i = choose|i: int|
                0 <= i < versions.len() && #[trigger] versions[i] == v && p(v) && (forall|j: int|
                    0 <= j < i ==> !p(#[trigger] versions[j]));
            lemma_descending_contains(list, v);
            assert(versions.contains(v));
            assert forall|w: VersionView|
                (#[trigger] crates.lookup(package.crate_name(), w)) is Some && p(w) && w
                    != v implies version_before(w, v) by {
                lemma_descending_contains(list, w);
                let j = choose|j: int| 0 <= j < versions.len() && versions[j] == w;
                assert(j > i) by {
                    if j < i {
                        assert(!p(versions[j]));
                    }
                }
                let n = list.len() - 1;
                assert(list[n - i].vers@ == v && list[n - j].vers@ == w);
            }
        },
        None => {
            assert forall|w: VersionView|
                (#[trigger] crates.lookup(package.crate_name(), w)) is Some implies !p(w) by {
                lemma_descending_contains(list, w);
                let j = choose|j: int| 0 <= j < versions.len() && versions[j] == w;
                assert(!p(versions[j]));
            }
        },
    }
}

/// The tier of a class and its number: classes of higher versions have greater ranks.
spec fn rank(c: SemverCompatibility) -> (int, int) {
    match c {
        SemverCompatibility::Patch(n) => (0, n as int),
        SemverCompatibility::Minor(n) => (1, n as int),
        SemverCompatibility::Major(n) => (2, n as int),
    }
}

spec fn rank_below(a: SemverCompatibility, b: SemverCompatibility) -> bool {
    rank(a).0 < rank(b).0 || (rank(a).0 == rank(b).0 && rank(a).1 < rank(b).1)
}

/// The classes do not ascend.
spec fn classes_descend(list: Seq<SemverCompatibility>) -> bool {
    forall|i: int, j: int|
        #![trigger list[i], list[j]]
        0 <= i < j < list.len() ==> list[i] == list[j] || rank_below(list[j], list[i])
}

proof fn lemma_classes_descend(versions: Seq<VersionView>, req: Seq<char>)
    requires
        forall|i: int, j: int|
            #![trigger versions[i], versions[j]]
            0 <= i < j < versions.len() ==> version_before(versions[j], versions[i]),
    ensures
        classes_descend(classes_meeting(versions, req)),
        forall|c: SemverCompatibility| #[trigger]
            classes_meeting(versions, req).contains(c) <==> exists|v: VersionView| #[trigger]
                versions.contains(v) && requirement_matches(req, v) && compatibility(v) == c,
    decreases versions.len(),
{
    let pred = |v: VersionView| requirement_matches(req, v);
    let kept = versions.filter(pred);
    let classes = classes_meeting(versions, req);
    if versions.len() > 0 {
        let rest = versions.drop_last();
        assert forall|i: int, j: int|
            #![trigger rest[i], rest[j]]
            0 <= i < j < rest.len() implies version_before(rest[j], rest[i]) by {
            assert(rest[i] == versions[i] && rest[j] == versions[j]);
        }
        lemma_classes_descend(rest, req);
        let n = versions.len() - 1;
        assert(versions.take(n) =~= rest);
        assert(versions.take(n + 1) =~= versions);
        lemma_classes_meeting(versions, req, n);
        let before = classes_meeting(rest, req);
        assert forall|i: int, j: int|
            #![trigger classes[i], classes[j]]
            0 <= i < j < classes.len() implies classes[i] == classes[j] || rank_below(
            classes[j],
            classes[i],
        ) by {
            if j < before.len() {
                assert(classes[i] == before[i] && classes[j] == before[j]);
            } else {
                assert(before.contains(before[i]));
                assert(classes[i] == before[i]);
                let v = choose|v: VersionView| #[trigger]
                    rest.contains(v) && requirement_matches(req, v) && compatibility(v)
                        == before[i];
                let k = choose|k: int| 0 <= k < rest.len() && rest[k] == v;
                assert(versions[k] == v);
                assert(version_before(versions[n], versions[k]));
            }
        }
    }
    assert forall|c: SemverCompatibility| #[trigger] classes.contains(c) <==> exists|
        v: VersionView,
    | #[trigger]
        versions.contains(v) && requirement_matches(req, v) && compatibility(v) == c by {
        if classes.contains(c) {
            let i = choose|i: int| 0 <= i < classes.len() && classes[i] == c;
            let v = kept[i];
            assert(kept.contains(v));
            lemma_filter_contains(versions, pred, v);
            assert(versions.contains(v) && requirement_matches(req, v) && compatibility(v) == c);
        }
        if exists|v: VersionView| #[trigger]
            versions.contains(v) && requirement_matches(req, v) && compatibility(v) == c {
            let v = choose|v: VersionView| #[trigger]
                versions.contains(v) && requirement_matches(req, v) && compatibility(v) == c;
            lemma_filter_contains(versions, pred, v);
            let i = choose|i: int| 0 <= i < kept.len() && kept[i] == v;
            assert(classes[i] == c);
        }
    }
}

proof fn lemma_without_repeats(list: Seq<SemverCompatibility>)
    requires
        classes_descend(list),
    ensures
        list.len() > 0 ==> without_repeats(list).len() > 0 && without_repeats(list).last()
            == list.last(),
        forall|i: int, j: int|
            #![trigger without_repeats(list)[i], without_repeats(list)[j]]
            0 <= i < j < without_repeats(list).len() ==> rank_below(
                without_repeats(list)[j],
                without_repeats(list)[i],
            ),
        forall|c: SemverCompatibility| #[trigger]
            without_repeats(list).contains(c) <==> list.contains(c),
    decreases list.len(),
{
    if list.len() > 0 {
        let rest = list.drop_last();
        assert forall|i: int, j: int|
            #![trigger rest[i], rest[j]]
            0 <= i < j < rest.len() implies rest[i] == rest[j] || rank_below(rest[j], rest[i]) by {
            assert(rest[i] == list[i] && rest[j] == list[j]);
        }
        lemma_without_repeats(rest);
        let w = without_repeats(rest);
        let all = without_repeats(list);
        let n = list.len() - 1;
        if n > 0 {
            assert(rest.last() == list[n - 1]);
            assert(list[n - 1] == list[n] || rank_below(list[n], list[n - 1]));
        }
        if !(n > 0 && list[n - 1] == list[n]) {
            assert(all == w.push(list.last()));
            assert forall|i: int, j: int|
                #![trigger all[i], all[j]]
                0 <= i < j < all.len() implies rank_below(all[j], all[i]) by {
                if j == w.len() && n > 0 && i < w.len() - 1 {
                    assert(rank_below(w[w.len() - 1], w[i]));
                }
            }
        }
        assert forall|c: SemverCompatibility| #[trigger] all.contains(c) <==> list.contains(c) by {
            if all.contains(c) {
                let i = choose|i: int| 0 <= i < all.len() && all[i] == c;
                if i < w.len() {
                    assert(w.contains(w[i]));
                    let k = choose|k: int| 0 <= k < rest.len() && rest[k] == c;
                    assert(list[k] == c);
                } else {
                    assert(list[n] == c);
                }
            }
            if list.contains(c) {
                let k = choose|k: int| 0 <= k < list.len() && list[k] == c;
                if k < n {
                    assert(rest[k] == c);
                    assert(w.contains(c));
                    let i = choose|i: int| 0 <= i < w.len() && w[i] == c;
                    assert(all[i] == c);
                } else {
                    assert(all[all.len() - 1] == c);
                }
            }
        }
    }
}

/// The requirement of a package that stands for one.
pub open spec fn requirement_of(package: NamesView) -> Seq<char>
    recommends
        package is Wide || package is WideFeatures,
{
    match package {
        NamesView::Wide(_, req, _, _) => req,
        NamesView::WideFeatures(_, req, _, _, _) => req,
        _ => Seq::empty(),
    }
}

/// Some version of the class `c` of the crate `name` is in the index and meets the
/// requirement.
pub open spec fn class_will_do(
    crates: Crates,
    name: Seq<char>,
    req: Seq<char>,
    c: SemverCompatibility,
) -> bool {
    exists|v: VersionView|
        (#[trigger] crates.lookup(name, v)) is Some && requirement_matches(req, v)
            && compatibility(v) == c
}

proof fn lemma_classes(crates: Crates, name: Seq<char>, req: Seq<char>)
    requires
        crates.wf(),
    ensures
        ({
            let all = classes_meeting(descending(crates.versions(name)), req);
            &&& classes_descend(all)
            &&& forall|c: SemverCompatibility| #[trigger]
                all.contains(c) <==> class_will_do(crates, name, req, c)
            &&& forall|c: SemverCompatibility| #[trigger]
                without_repeats(all).contains(c) <==> class_will_do(crates, name, req, c)
            &&& forall|i: int, j: int|
                #![trigger without_repeats(all)[i], without_repeats(all)[j]]
                0 <= i < j < without_repeats(all).len() ==> rank_below(
                    without_repeats(all)[j],
                    without_repeats(all)[i],
                )
            &&& forall|c: SemverCompatibility| #[trigger] all.contains(c) ==> c.valid()
        }),
{
    let list = crates.versions(name);
    let versions = descending(list);
    crates.versions_ascend(name);
    assert forall|i: int, j: int|
        #![trigger versions[i], versions[j]]
        0 <= i < j < versions.len() implies version_before(versions[j], versions[i]) by {
        let n = list.len() - 1;
        assert(list[n - i].vers@ == versions[i] && list[n - j].vers@ == versions[j]);
    }
    lemma_classes_descend(versions, req);
    let all = classes_meeting(versions, req);
    lemma_without_repeats(all);
    assert forall|c: SemverCompatibility| #[trigger] all.contains(c) <==> class_will_do(
        crates,
        name,
        req,
        c,
    ) by {
        if all.contains(c) {
            let v = choose|v: VersionView| #[trigger]
                versions.contains(v) && requirement_matches(req, v) && compatibility(v) == c;
            lemma_descending_contains(list, v);
            assert(crates.lookup(name, v) is Some);
        }
        if class_will_do(crates, name, req, c) {
            let v = choose|v: VersionView|
                (#[trigger] crates.lookup(name, v)) is Some && requirement_matches(req, v)
                    && compatibility(v) == c;
            lemma_descending_contains(list, v);
            assert(versions.contains(v) && requirement_matches(req, v));
        }
    }
}

/// A requirement gets the canonical version of the highest class that has a version that
/// meets it and whose canonical version will do; it gets none only if there is no such
/// class.
pub proof fn the_highest_class_is_chosen(
    crates: Crates,
    package: NamesView,
    p: spec_fn(VersionView) -> bool,
)
    requires
        crates.wf(),
        package is Wide || package is WideFeatures,
    ensures
        match first_with(candidates(crates, package), p) {
            Some(v) => p(v) && exists|c: SemverCompatibility|
                v == c.canonical_view() && #[trigger] class_will_do(
                    crates,
                    package.crate_name(),
                    requirement_of(package),
                    c,
                ),
            None => true,
        },
        forall|c: SemverCompatibility| #[trigger]
            class_will_do(crates, package.crate_name(), requirement_of(package), c) && p(
                c.canonical_view(),
            ) ==> match first_with(candidates(crates, package), p) {
                Some(v) => v == c.canonical_view() || version_before(c.canonical_view(), v),
                None => false,
            },
{
    let name = package.crate_name();
    let req = requirement_of(package);
    lemma_classes(crates, name, req);
    let all = classes_meeting(descending(crates.versions(name)), req);
    let list = candidates(crates, package);
    assert(list == canonical_versions(all));
    lemma_first_with(list, p);
    match first_with(list, p) {
        Some(v) => {
            let i = choose|i: int|
                0 <= i < list.len() && #[trigger] list[i] == v && p(v) && (forall|j: int|
                    0 <= j < i ==> !p(#[trigger] list[j]));
            assert(all.contains(all[i]));
            assert(class_will_do(crates, name, req, all[i]));
            assert forall|c: SemverCompatibility| #[trigger]
                class_will_do(crates, name, req, c) && p(c.canonical_view()) implies v
                == c.canonical_view() || version_before(c.canonical_view(), v) by {
                assert(all.contains(c));
                let j = choose|j: int| 0 <= j < all.len() && all[j] == c;
                assert(list[j] == c.canonical_view());
                assert(all[i].valid() && c.valid());
                if j > i {
                    assert(all[i] == all[j] || rank_below(all[j], all[i]));
                } else if j < i {
                    assert(!p(list[j]));
                }
            }
        },
        None => {
            assert forall|c: SemverCompatibility| #[trigger]
                class_will_do(crates, name, req, c) implies !p(c.canonical_view()) by {
                assert(all.contains(c));
                let j = choose|j: int| 0 <= j < all.len() && all[j] == c;
                assert(!p(list[j]));
            }
        },
    }
}

/// For a requirement one version is counted for each class that has a version that meets
/// it, and no other.
pub proof fn a_class_is_counted_once(crates: Crates, package: NamesView)
    requires
        crates.wf(),
        package is Wide || package is WideFeatures,
    ensures
        counted(crates, package).no_duplicates(),
        forall|v: VersionView| #[trigger]
            counted(crates, package).contains(v) <==> exists|c: SemverCompatibility|
                v == c.canonical_view() && #[trigger] class_will_do(
                    crates,
                    package.crate_name(),
                    requirement_of(package),
                    c,
                ),
{
    let name = package.crate_name();
    let req = requirement_of(package);
    lemma_classes(crates, name, req);
    let all = classes_meeting(descending(crates.versions(name)), req);
    let w = without_repeats(all);
    let list = counted(crates, package);
    assert(list == canonical_versions(w));
    assert forall|i: int, j: int|
        0 <= i < list.len() && 0 <= j < list.len() && i != j implies list[i] != list[j] by {
        assert(w.contains(w[i]) && w.contains(w[j]));
        assert(all.contains(w[i]) && all.contains(w[j]));
        canonical_belongs_to_its_class(w[i]);
        canonical_belongs_to_its_class(w[j]);
        if i < j {
            assert(rank_below(w[j], w[i]));
        } else {
            assert(rank_below(w[i], w[j]));
        }
    }
    assert forall|v: VersionView| #[trigger] list.contains(v) <==> exists|c: SemverCompatibility|
        v == c.canonical_view() && #[trigger] class_will_do(crates, name, req, c) by {
        if list.contains(v) {
            let i = choose|i: int| 0 <= i < list.len() && list[i] == v;
            assert(w.contains(w[i]));
            assert(class_will_do(crates, name, req, w[i]));
        }
        if exists|c: SemverCompatibility|
            v == c.canonical_view() && #[trigger] class_will_do(crates, name, req, c) {
            let c = choose|c: SemverCompatibility|
                v == c.canonical_view() && #[trigger] class_will_do(crates, name, req, c);
            assert(w.contains(c));
            let i = choose|i: int| 0 <= i < w.len() && w[i] == c;
            assert(list[i] == v);
        }
    }
}

/// A version can be chosen for a package if and only if its count is not zero.
pub proof fn a_choice_exists_where_something_is_counted(
    crates: Crates,
    package: NamesView,
    p: spec_fn(VersionView) -> bool,
)
    requires
        crates.wf(),
    ensures
        first_with(candidates(crates, package), p) is Some <==> counted(crates, package).filter(
            p,
        ).len() > 0,
{
    let chosen = candidates(crates, package);
    let list = counted(crates, package);
    lemma_first_and_filter(chosen, p);
    lemma_first_and_filter(list, p);
    if package is Wide || package is WideFeatures {
        let name = package.crate_name();
        let req = requirement_of(package);
        lemma_classes(crates, name, req);
        let all = classes_meeting(descending(crates.versions(name)), req);
        let w = without_repeats(all);
        assert(chosen == canonical_versions(all) && list == canonical_versions(w));
        assert forall|v: VersionView| #[trigger] chosen.contains(v) implies list.contains(v) by {
            let i = choose|i: int| 0 <= i < chosen.len() && chosen[i] == v;
            assert(all.contains(all[i]));
            assert(w.contains(all[i]));
            let j = choose|j: int| 0 <= j < w.len() && w[j] == all[i];
            assert(list[j] == v);
        }
        assert forall|v: VersionView| #[trigger] list.contains(v) implies chosen.contains(v) by {
            let i = choose|i: int| 0 <= i < list.len() && list[i] == v;
            assert(w.contains(w[i]));
            assert(all.contains(w[i]));
            let j = choose|j: int| 0 <= j < all.len() && all[j] == w[i];
            assert(chosen[j] == v);
        }
    }
}

/// The function decides by `p` if and only if whatever it says of a version is what `p` says.
pub proof fn what_decides<F: Fn(&Version) -> bool>(contains: F, p: spec_fn(VersionView) -> bool)
    ensures
        decides(contains, p) <==> forall|v: &Version, b: bool|
            call_ensures(contains, (v,), b) ==> b == p(v@),
{
}

/// Filtering a list that holds everything once gives one that does too, and of the same
/// things as far as they pass; so its length is their number.
proof fn lemma_filter_counts(list: Seq<VersionView>, p: spec_fn(VersionView) -> bool)
    requires
        list.no_duplicates(),
    ensures
        list.filter(p).no_duplicates(),
        list.filter(p).to_set().len() == list.filter(p).len(),
        forall|x: VersionView| #[trigger]
            list.filter(p).to_set().contains(x) <==> list.contains(x) && p(x),
    decreases list.len(),
{
    reveal(Seq::filter);
    let kept = list.filter(p);
    assert forall|x: VersionView| kept.contains(x) == (list.contains(x) && p(x)) by {
        lemma_filter_contains(list, p, x);
    }
    if list.len() > 0 {
        let rest = list.drop_last();
        let before = rest.filter(p);
        assert(rest.no_duplicates());
        lemma_filter_counts(rest, p);
        if p(list.last()) {
            assert(kept == before.push(list.last()));
            assert(!before.contains(list.last())) by {
                lemma_filter_contains(rest, p, list.last());
                if rest.contains(list.last()) {
                    let i = choose|i: int| 0 <= i < rest.len() && rest[i] == list.last();
                    assert(list[i] == list[list.len() - 1]);
                }
            }
            assert forall|i: int, j: int|
                0 <= i < kept.len() && 0 <= j < kept.len() && i != j implies kept[i] != kept[j] by {
                if i == before.len() {
                    assert(before.contains(before[j]));
                } else if j == before.len() {
                    assert(before.contains(before[i]));
                }
            }
        }
    }
    kept.unique_seq_to_set();
    assert forall|x: VersionView| #[trigger] kept.to_set().contains(x) <==> list.contains(x) && p(
        x,
    ) by {
        lemma_filter_contains(list, p, x);
    }
}

/// For a crate, or a feature of one, each version that the index holds of the crate is counted
/// once, and nothing else is: the count is the number of those that will do.
pub proof fn a_version_is_counted_once(
    crates: Crates,
    package: NamesView,
    p: spec_fn(VersionView) -> bool,
)
    requires
        crates.wf(),
        package is Bucket || package is BucketFeatures,
    ensures
        counted(crates, package).no_duplicates(),
        forall|w: VersionView| #[trigger]
            counted(crates, package).contains(w) <==> crates.lookup(package.crate_name(), w)
                is Some,
        ({
            let will_do = Set::new(
                |w: VersionView| crates.lookup(package.crate_name(), w) is Some && p(w),
            );
            &&& will_do.finite()
            &&& counted(crates, package).filter(p).len() == will_do.len()
        }),
{
    let list = crates.versions(package.crate_name());
    let versions = descending(list);
    crates.versions_ascend(package.crate_name());
    assert forall|i: int, j: int|
        0 <= i < versions.len() && 0 <= j < versions.len() && i != j implies versions[i]
        != versions[j] by {
        let n = list.len() - 1;
        assert(versions[i] == list[n - i].vers@ && versions[j] == list[n - j].vers@);
        if i < j {
            assert(list[n - j].vers@ != list[n - i].vers@);
        } else {
            assert(list[n - i].vers@ != list[n - j].vers@);
        }
    }
    assert forall|w: VersionView| #[trigger] versions.contains(w) <==> crates.lookup(
        package.crate_name(),
        w,
    ) is Some by {
        lemma_descending_contains(list, w);
    }
    lemma_filter_counts(versions, p);
    let will_do = Set::new(
        |w: VersionView| crates.lookup(package.crate_name(), w) is Some && p(w),
    );
    assert(versions.filter(p).to_set() =~= will_do);
    vstd::seq_lib::seq_to_set_is_finite(versions.filter(p));
}

/// For a requirement, or a feature under one, the count is the number of classes of which the
/// index holds a version that meets it and whose lowest release will do.
pub proof fn the_classes_of_a_requirement_are_counted(
    crates: Crates,
    name: Seq<char>,
    req: Seq<char>,
    parent: Seq<char>,
    c: SemverCompatibility,
    feat: Seq<char>,
    p: spec_fn(VersionView) -> bool,
)
    requires
        crates.wf(),
    ensures
        ({
            let will_do = Set::new(
                |w: VersionView|
                    p(w) && exists|u: VersionView|
                        (#[trigger] crates.lookup(name, u)) is Some && requirement_matches(req, u)
                            && w == compatibility(u).canonical_view(),
            );
            &&& will_do.finite()
            &&& counted(crates, NamesView::Wide(name, req, parent, c)).filter(p).len()
                == will_do.len()
            &&& counted(crates, NamesView::WideFeatures(name, req, parent, c, feat)).filter(p).len()
                == will_do.len()
        }),
{
    let package = NamesView::Wide(name, req, parent, c);
    let other = NamesView::WideFeatures(name, req, parent, c, feat);
    let list = counted(crates, package);
    a_class_is_counted_once(crates, package);
    assert(counted(crates, other) == list);
    lemma_filter_counts(list, p);
    let will_do = Set::new(
        |w: VersionView|
            p(w) && exists|u: VersionView|
                (#[trigger] crates.lookup(name, u)) is Some && requirement_matches(req, u) && w
                    == compatibility(u).canonical_view(),
    );
    assert forall|w: VersionView| list.filter(p).to_set().contains(w) <==> will_do.contains(w) by {
        if list.contains(w) {
            let k = choose|k: SemverCompatibility|
                w == k.canonical_view() && #[trigger] class_will_do(crates, name, req, k);
            let u = choose|u: VersionView|
                (#[trigger] crates.lookup(name, u)) is Some && requirement_matches(req, u)
                    && compatibility(u) == k;
            assert(w == compatibility(u).canonical_view());
        }
        if will_do.contains(w) {
            let u = choose|u: VersionView|
                (#[trigger] crates.lookup(name, u)) is Some && requirement_matches(req, u) && w
                    == compatibility(u).canonical_view();
            assert(class_will_do(crates, name, req, compatibility(u)));
        }
    }
    assert(list.filter(p).to_set() =~= will_do);
    vstd::seq_lib::seq_to_set_is_finite(list.filter(p));
}

/// For a requirement, or a feature under one, the lowest release of the highest class is
/// chosen of which the index holds a version that meets it and whose lowest release will do;
/// and nothing only if there is no such class.
pub proof fn the_highest_class_of_a_requirement_is_chosen(
    crates: Crates,
    name: Seq<char>,
    req: Seq<char>,
    parent: Seq<char>,
    c: SemverCompatibility,
    feat: Seq<char>,
    p: spec_fn(VersionView) -> bool,
)
    requires
        crates.wf(),
    ensures
        ({
            let chosen = first_with(candidates(crates, NamesView::Wide(name, req, parent, c)), p);
            &&& chosen == first_with(
                candidates(crates, NamesView::WideFeatures(name, req, parent, c, feat)),
                p,
            )
            &&& chosen matches Some(v) ==> p(v) && exists|u: VersionView|
                (#[trigger] crates.lookup(name, u)) is Some && requirement_matches(req, u) && v
                    == compatibility(u).canonical_view()
            &&& forall|u: VersionView|
                (#[trigger] crates.lookup(name, u)) is Some && requirement_matches(req, u) && p(
                    compatibility(u).canonical_view(),
                ) ==> (chosen matches Some(v) && (v == compatibility(u).canonical_view()
                    || version_before(compatibility(u).canonical_view(), v)))
        }),
{
    let package = NamesView::Wide(name, req, parent, c);
    the_highest_class_is_chosen(crates, package, p);
    let chosen = first_with(candidates(crates, package), p);
    if let Some(v) = chosen {
        let k = choose|k: SemverCompatibility|
            v == k.canonical_view() && #[trigger] class_will_do(crates, name, req, k);
        let u = choose|u: VersionView|
            (#[trigger] crates.lookup(name, u)) is Some && requirement_matches(req, u)
                && compatibility(u) == k;
        assert(v == compatibility(u).canonical_view());
    }
    assert forall|u: VersionView|
        (#[trigger] crates.lookup(name, u)) is Some && requirement_matches(req, u) && p(
            compatibility(u).canonical_view(),
        ) implies (chosen matches Some(v) && (v == compatibility(u).canonical_view()
        || version_before(compatibility(u).canonical_view(), v))) by {
        assert(class_will_do(crates, name, req, compatibility(u)));
    }
}

/// The versions of a list are handed out from the last to the first, and the versions that
/// stand for classes in the order of the classes.
pub proof fn versions_come_from_the_last_on(list: Seq<VersionData>, classes: Seq<SemverCompatibility>)
    ensures
        descending(list).len() == list.len(),
        forall|i: int|
            0 <= i < list.len() ==> #[trigger] descending(list)[i] == list[list.len() - 1
                - i].vers@,
        canonical_versions(classes).len() == classes.len(),
        forall|i: int|
            0 <= i < classes.len() ==> #[trigger] canonical_versions(classes)[i]
                == classes[i].canonical_view(),
{
}

/// An entry that repeats the one before it is left out, and any other is kept.
pub proof fn only_repeats_are_left_out(list: Seq<SemverCompatibility>, c: SemverCompatibility)
    ensures
        without_repeats(Seq::empty()) == Seq::<SemverCompatibility>::empty(),
        list.len() > 0 && list.last() == c ==> without_repeats(list.push(c)) == without_repeats(
            list,
        ),
        !(list.len() > 0 && list.last() == c) ==> without_repeats(list.push(c)) == without_repeats(
            list,
        ).push(c),
{
    assert(list.push(c).drop_last() =~= list);
}

} // verus!
