//! How deep a selection is: the walk along its dependencies, from the crate that was
//! resolved.

use std::collections::VecDeque;
use vstd::prelude::*;
use crate::constraints::{combined, lemma_combined_finite, Demand, Dependencies, DependenciesView};
use crate::index_data::Crates;
use crate::name_map::NameMap;
use crate::names::{Names, NamesView};
use crate::provider::{answerable, dependencies_of, Index, Pinned};
use crate::selection::SelectedDependencies;
use crate::version::{Version, VersionView};

verus! {

/// The depth at which the walk ends.
pub const DEPTH_LIMIT: usize = 99;

/// The package is selected, and it can be used at the version that it has.
pub open spec fn usable(crates: Crates, sel: Map<NamesView, VersionView>, n: NamesView) -> bool {
    sel.contains_key(n) && dependencies_of(crates, n, sel[n]) is Available
}

/// The package `n`, as it is selected, demands the package `m`.
pub open spec fn leads_to(
    crates: Crates,
    sel: Map<NamesView, VersionView>,
    n: NamesView,
    m: NamesView,
) -> bool {
    usable(crates, sel, n) && dependencies_of(crates, n, sel[n])->Available_0.contains_key(m)
}

/// A chain of packages that starts at the root, each of which demands the next. A
/// chain goes on from the root only to a crate: what the root demands besides crates
/// is not followed.
pub open spec fn chain(
    crates: Crates,
    sel: Map<NamesView, VersionView>,
    root: NamesView,
    path: Seq<NamesView>,
) -> bool {
    &&& path.len() >= 1
    &&& path[0] == root
    &&& path.len() > 1 ==> path[1].is_real()
    &&& forall|i: int|
        0 <= i < path.len() - 1 ==> leads_to(crates, sel, #[trigger] path[i], path[i + 1])
}

/// How many crates a chain has after the root.
pub open spec fn depth_of(path: Seq<NamesView>) -> nat
    decreases path.len(),
{
    if path.len() <= 1 {
        0
    } else {
        depth_of(path.drop_last()) + if path.last().is_real() {
            1nat
        } else {
            0nat
        }
    }
}

/// Some chain within the limit ends at a package that is not selected or cannot be used.
pub open spec fn broken(
    crates: Crates,
    sel: Map<NamesView, VersionView>,
    root: NamesView,
) -> bool {
    exists|path: Seq<NamesView>| #[trigger]
        chain(crates, sel, root, path) && depth_of(path) <= DEPTH_LIMIT && !usable(
            crates,
            sel,
            path.last(),
        )
}

/// Some chain goes beyond the limit.
pub open spec fn too_deep(
    crates: Crates,
    sel: Map<NamesView, VersionView>,
    root: NamesView,
) -> bool {
    exists|path: Seq<NamesView>| #[trigger]
        chain(crates, sel, root, path) && depth_of(path) > DEPTH_LIMIT
}

/// The depth of the deepest chain is `d`.
pub open spec fn deepest(
    crates: Crates,
    sel: Map<NamesView, VersionView>,
    root: NamesView,
    d: nat,
) -> bool {
    &&& exists|path: Seq<NamesView>| #[trigger]
        chain(crates, sel, root, path) && depth_of(path) == d
    &&& forall|path: Seq<NamesView>| #[trigger]
        chain(crates, sel, root, path) ==> depth_of(path) <= d
}

/// Some chain ends at a package that is not selected or cannot be used, and the walk comes
/// to it before it can go beyond the limit. It follows the chains one package at a time,
/// all of them together; to go beyond the limit it looks one package ahead.
pub open spec fn breaks_first(
    crates: Crates,
    sel: Map<NamesView, VersionView>,
    root: NamesView,
) -> bool {
    exists|path: Seq<NamesView>| #[trigger]
        chain(crates, sel, root, path) && depth_of(path) <= DEPTH_LIMIT && !usable(
            crates,
            sel,
            path.last(),
        ) && (forall|deep: Seq<NamesView>| #[trigger]
            chain(crates, sel, root, deep) && depth_of(deep) > DEPTH_LIMIT ==> path.len() + 1
                < deep.len())
}

/// Some chain goes beyond the limit, and the walk finds that before it can come to a
/// package that is not selected or cannot be used.
pub open spec fn limit_first(
    crates: Crates,
    sel: Map<NamesView, VersionView>,
    root: NamesView,
) -> bool {
    exists|deep: Seq<NamesView>| #[trigger]
        chain(crates, sel, root, deep) && depth_of(deep) > DEPTH_LIMIT && (forall|
            path: Seq<NamesView>,
        | #[trigger]
            chain(crates, sel, root, path) && depth_of(path) <= DEPTH_LIMIT && !usable(
                crates,
                sel,
                path.last(),
            ) ==> deep.len() <= path.len())
}

/// The walk can come to the end of the chain: no other ends it before.
pub open spec fn may_come_to(
    crates: Crates,
    sel: Map<NamesView, VersionView>,
    root: NamesView,
    path: Seq<NamesView>,
) -> bool {
    &&& chain(crates, sel, root, path)
    &&& forall|other: Seq<NamesView>| #[trigger]
        chain(crates, sel, root, other) && !usable(crates, sel, other.last()) ==> path.len()
            <= other.len()
    &&& forall|other: Seq<NamesView>| #[trigger]
        chain(crates, sel, root, other) && depth_of(other) > DEPTH_LIMIT ==> path.len()
            < other.len()
}

/// The walk comes to the end of the chain: none ends it before, or as early.
pub open spec fn must_come_to(
    crates: Crates,
    sel: Map<NamesView, VersionView>,
    root: NamesView,
    path: Seq<NamesView>,
) -> bool {
    &&& chain(crates, sel, root, path)
    &&& forall|other: Seq<NamesView>| #[trigger]
        chain(crates, sel, root, other) && !usable(crates, sel, other.last()) ==> path.len()
            < other.len()
    &&& forall|other: Seq<NamesView>| #[trigger]
        chain(crates, sel, root, other) && depth_of(other) > DEPTH_LIMIT ==> path.len() + 1
            < other.len()
}

/// The walk can come to the selected package `p`.
pub open spec fn walked(
    crates: Crates,
    sel: Map<NamesView, VersionView>,
    root: NamesView,
    p: Pinned,
) -> bool {
    &&& sel.contains_key(p.0)
    &&& sel[p.0] == p.1
    &&& exists|path: Seq<NamesView>| #[trigger]
        may_come_to(crates, sel, root, path) && path.last() == p.0
}

/// The walk comes to the selected package `p`.
pub open spec fn surely_walked(
    crates: Crates,
    sel: Map<NamesView, VersionView>,
    root: NamesView,
    p: Pinned,
) -> bool {
    &&& sel.contains_key(p.0)
    &&& sel[p.0] == p.1
    &&& exists|path: Seq<NamesView>| #[trigger]
        must_come_to(crates, sel, root, path) && path.last() == p.0
}

/// The index can tell of every package to which the walk can come what it demands.
pub open spec fn walkable(
    crates: Crates,
    sel: Map<NamesView, VersionView>,
    root: NamesView,
) -> bool {
    forall|p: Pinned| #[trigger] walked(crates, sel, root, p) ==> answerable(crates, p.0, p.1)
}

/// A chain of depth `d` with `h` packages after the root ends at `n`.
#[verifier::opaque]
spec fn reached(
    crates: Crates,
    sel: Map<NamesView, VersionView>,
    root: NamesView,
    n: NamesView,
    d: nat,
    h: nat,
) -> bool {
    exists|path: Seq<NamesView>| #[trigger]
        chain(crates, sel, root, path) && depth_of(path) == d && path.len() == h + 1
            && path.last() == n
}

/// A chain is followed by what its last package demands.
proof fn lemma_extend(
    crates: Crates,
    sel: Map<NamesView, VersionView>,
    root: NamesView,
    n: NamesView,
    d: nat,
    h: nat,
    m: NamesView,
)
    requires
        reached(crates, sel, root, n, d, h),
        leads_to(crates, sel, n, m),
        d > 0 || m.is_real(),
    ensures
        reached(crates, sel, root, m, d + step(m), h + 1),
{
    reveal(reached);
    let path = choose|path: Seq<NamesView>| #[trigger]
        chain(crates, sel, root, path) && depth_of(path) == d && path.len() == h + 1
            && path.last() == n;
    let more = path.push(m);
    assert(more.drop_last() =~= path);
    assert forall|i: int| 0 <= i < more.len() - 1 implies leads_to(
        crates,
        sel,
        #[trigger] more[i],
        more[i + 1],
    ) by {
        if i < path.len() - 1 {
            assert(path[i] == more[i] && path[i + 1] == more[i + 1]);
        }
    }
    assert(chain(crates, sel, root, more));
    assert(depth_of(more) == d + step(m));
    assert(more.last() == m);
}

/// The packages that a list of selected packages demands.
spec fn demanded_by(
    crates: Crates,
    sel: Map<NamesView, VersionView>,
    list: Seq<NamesView>,
) -> Set<NamesView>
    decreases list.len(),
{
    if list.len() == 0 {
        Set::empty()
    } else {
        demanded_by(crates, sel, list.drop_last()).union(
            match dependencies_of(crates, list.last(), sel[list.last()]) {
                DependenciesView::Available(deps) => deps.dom(),
                DependenciesView::Unavailable(_) => Set::empty(),
            },
        )
    }
}

proof fn lemma_answer_finite(crates: Crates, n: NamesView, v: VersionView)
    ensures
        dependencies_of(crates, n, v) matches DependenciesView::Available(deps)
            ==> deps.dom().finite(),
{
    if let DependenciesView::Available(deps) = dependencies_of(crates, n, v) {
        let demands = choose|demands: Seq<Demand>| deps == #[trigger] combined(demands);
        lemma_combined_finite(demands);
    }
}

proof fn lemma_demanded_by(
    crates: Crates,
    sel: Map<NamesView, VersionView>,
    list: Seq<NamesView>,
)
    ensures
        demanded_by(crates, sel, list).finite(),
        forall|i: int, m: NamesView|
            #![trigger list[i], demanded_by(crates, sel, list).contains(m)]
            0 <= i < list.len() && leads_to(crates, sel, list[i], m) ==> demanded_by(
                crates,
                sel,
                list,
            ).contains(m),
    decreases list.len(),
{
    if list.len() > 0 {
        let rest = list.drop_last();
        lemma_demanded_by(crates, sel, rest);
        lemma_answer_finite(crates, list.last(), sel[list.last()]);
        assert forall|i: int, m: NamesView|
            #![trigger list[i], demanded_by(crates, sel, list).contains(m)]
            0 <= i < list.len() && leads_to(crates, sel, list[i], m) implies demanded_by(
            crates,
            sel,
            list,
        ).contains(m) by {
            if i < rest.len() {
                assert(rest[i] == list[i]);
                assert(demanded_by(crates, sel, rest).contains(m));
            }
        }
    }
}

/// The list holds every package that a selected one demands.
spec fn covers(
    crates: Crates,
    sel: Map<NamesView, VersionView>,
    places: Seq<NamesView>,
) -> bool {
    forall|n: NamesView, m: NamesView| #[trigger]
        leads_to(crates, sel, n, m) ==> places.contains(m)
}

proof fn lemma_cover(crates: Crates, sel: Map<NamesView, VersionView>) -> (places: Seq<NamesView>)
    requires
        sel.dom().finite(),
    ensures
        covers(crates, sel, places),
{
    let list = sel.dom().to_seq();
    let all = demanded_by(crates, sel, list);
    lemma_demanded_by(crates, sel, list);
    sel.dom().lemma_to_seq_to_set_id();
    all.lemma_to_seq_to_set_id();
    let places = all.to_seq();
    assert forall|n: NamesView, m: NamesView| #[trigger]
        leads_to(crates, sel, n, m) implies places.contains(m) by {
        assert(list.to_set().contains(n));
        let i = choose|i: int| 0 <= i < list.len() && list[i] == n;
        assert(leads_to(crates, sel, list[i], m));
        assert(all.contains(m));
        assert(places.to_set().contains(m));
    }
    places
}

/// The depth that the walk has found for a package so far.
spec fn label(depths: Map<NamesView, usize>, n: NamesView) -> nat {
    if depths.contains_key(n) {
        depths[n] as nat
    } else {
        0
    }
}

spec fn step(m: NamesView) -> nat {
    if m.is_real() {
        1
    } else {
        0
    }
}

/// A package that the walk has found, with its depth, and how many packages come before it
/// on the chain.
type Find = (NamesView, nat, nat);

/// The package `m` was found at the depth `d` or deeper, after at most `h` packages.
#[verifier::opaque]
spec fn found(log: Seq<Find>, m: NamesView, d: nat, h: nat) -> bool {
    exists|j: int| found_at(log, j, m, d, h)
}

spec fn found_at(log: Seq<Find>, j: int, m: NamesView, d: nat, h: nat) -> bool {
    0 <= j < log.len() && log[j].0 == m && log[j].1 >= d && log[j].2 <= h
}

/// The package was asked for, and what it demands has been found one package later, at the
/// depth that follows, or deeper.
#[verifier::opaque]
spec fn expanded(
    crates: Crates,
    sel: Map<NamesView, VersionView>,
    recorded: Set<Pinned>,
    log: Seq<Find>,
    e: Find,
) -> bool {
    &&& usable(crates, sel, e.0)
    &&& recorded.contains((e.0, sel[e.0]))
    &&& forall|m: NamesView| #[trigger]
        leads_to(crates, sel, e.0, m) ==> e.1 + step(m) <= DEPTH_LIMIT && (e.1 + step(m) > 0
            ==> found(log, m, e.1 + step(m), e.2 + 1))
}

/// All that was found first has been dealt with, up to `head`.
#[verifier::opaque]
spec fn done(
    crates: Crates,
    sel: Map<NamesView, VersionView>,
    recorded: Set<Pinned>,
    log: Seq<Find>,
    head: int,
) -> bool {
    forall|i: int| 0 <= i < head ==> expanded(crates, sel, recorded, log, #[trigger] log[i])
}

/// The queue holds what was found and has not been dealt with, in the order in which it was
/// found.
#[verifier::opaque]
spec fn queue_of(que: Seq<(Names, usize)>, log: Seq<Find>, head: int) -> bool {
    &&& que.len() == log.len() - head
    &&& forall|i: int|
        0 <= i < que.len() ==> (#[trigger] que[i]).0@ == log[head + i].0 && que[i].1
            == log[head + i].1
}

/// What was found is in order: the chains do not get shorter, and none is longer than
/// `most`.
#[verifier::opaque]
spec fn in_levels(log: Seq<Find>, most: nat) -> bool {
    &&& forall|i: int, j: int|
        #![trigger log[i], log[j]]
        0 <= i < j < log.len() ==> log[i].2 <= log[j].2
    &&& forall|i: int| 0 <= i < log.len() ==> (#[trigger] log[i]).2 <= most
}

/// The root was found first; whatever was found is at the end of a chain within the limit,
/// and the depths are the greatest at which anything was found.
#[verifier::opaque]
spec fn log_fits(
    crates: Crates,
    sel: Map<NamesView, VersionView>,
    root: NamesView,
    depths: Map<NamesView, usize>,
    log: Seq<Find>,
) -> bool {
    &&& log.len() > 0
    &&& log[0] == (root, 0nat, 0nat)
    &&& forall|i: int|
        0 <= i < log.len() ==> (#[trigger] log[i]).1 <= DEPTH_LIMIT && reached(
            crates,
            sel,
            root,
            log[i].0,
            log[i].1,
            log[i].2,
        )
    &&& forall|i: int|
        0 < i < log.len() ==> 1 <= (#[trigger] log[i]).1 <= label(depths, log[i].0)
    &&& forall|m: NamesView| #[trigger]
        depths.contains_key(m) ==> depths[m] >= 1 && exists|j: int|
            0 <= j < log.len() && (#[trigger] log[j]).0 == m && log[j].1 == depths[m]
}

/// How much the depths of the packages of a list can still grow.
spec fn room(depths: Map<NamesView, usize>, list: Seq<NamesView>) -> nat
    decreases list.len(),
{
    if list.len() == 0 {
        0
    } else {
        let here = DEPTH_LIMIT - label(depths, list.last());
        room(depths, list.drop_last()) + if here > 0 {
            here as nat
        } else {
            0
        }
    }
}

proof fn lemma_room(depths: Map<NamesView, usize>, list: Seq<NamesView>, m: NamesView, d: usize)
    requires
        label(depths, m) < d <= DEPTH_LIMIT,
    ensures
        room(depths.insert(m, d), list) <= room(depths, list),
        list.contains(m) ==> room(depths.insert(m, d), list) < room(depths, list),
    decreases list.len(),
{
    if list.len() > 0 {
        let rest = list.drop_last();
        lemma_room(depths, rest, m, d);
        if list.contains(m) && list.last() != m {
            let i = choose|i: int| 0 <= i < list.len() && list[i] == m;
            assert(rest[i] == m);
        }
    }
}

/// What has been dealt with stays so when more is asked for and found.
proof fn lemma_done(
    crates: Crates,
    sel: Map<NamesView, VersionView>,
    before: Set<Pinned>,
    after: Set<Pinned>,
    log: Seq<Find>,
    more: Seq<Find>,
    head: int,
)
    requires
        done(crates, sel, before, log, head),
        head <= log.len() <= more.len(),
        more.take(log.len() as int) == log,
        before.subset_of(after),
    ensures
        done(crates, sel, after, more, head),
        forall|m: NamesView, d: nat, h: nat| #[trigger]
            found(log, m, d, h) ==> found(more, m, d, h),
{
    reveal(done);
    reveal(found);
    reveal(expanded);
    assert forall|m: NamesView, d: nat, h: nat| #[trigger] found(log, m, d, h) implies found(
        more,
        m,
        d,
        h,
    ) by {
        let j = choose|j: int| found_at(log, j, m, d, h);
        assert(log[j] == more.take(log.len() as int)[j]);
        assert(found_at(more, j, m, d, h));
    }
    assert forall|i: int| 0 <= i < head implies expanded(
        crates,
        sel,
        after,
        more,
        #[trigger] more[i],
    ) by {
        assert(log[i] == more.take(log.len() as int)[i]);
        assert(expanded(crates, sel, before, log, log[i]));
    }
}

/// Where everything on shorter chains has been dealt with, the end of a chain was found, and
/// it is within the limit.
proof fn lemma_end_is_found(
    crates: Crates,
    sel: Map<NamesView, VersionView>,
    root: NamesView,
    recorded: Set<Pinned>,
    log: Seq<Find>,
    head: int,
    path: Seq<NamesView>,
)
    requires
        done(crates, sel, recorded, log, head),
        log.len() > 0,
        log[0] == (root, 0nat, 0nat),
        forall|i: int|
            head <= i < log.len() ==> path.len() <= (#[trigger] log[i]).2 + 1,
        chain(crates, sel, root, path),
    ensures
        found(log, path.last(), depth_of(path), (path.len() - 1) as nat),
        depth_of(path) <= DEPTH_LIMIT,
        path.len() > 1 ==> depth_of(path) >= 1,
    decreases path.len(),
{
    reveal(done);
    reveal(found);
    reveal(expanded);
    if path.len() > 1 {
        let short = path.drop_last();
        assert forall|i: int| 0 <= i < short.len() - 1 implies leads_to(
            crates,
            sel,
            #[trigger] short[i],
            short[i + 1],
        ) by {
            assert(short[i] == path[i] && short[i + 1] == path[i + 1]);
        }
        assert(chain(crates, sel, root, short));
        lemma_end_is_found(crates, sel, root, recorded, log, head, short);
        let n = short.last();
        let m = path.last();
        assert(leads_to(crates, sel, path[path.len() - 2], path[path.len() - 1]));
        let d = depth_of(short);
        let g = (short.len() - 1) as nat;
        let j = choose|j: int| found_at(log, j, n, d, g);
        assert(j < head);
        assert(expanded(crates, sel, recorded, log, log[j]));
        assert(leads_to(crates, sel, log[j].0, m));
        if short.len() == 1 {
            assert(m == path[1]);
        }
        assert(depth_of(path) == d + step(m));
        let deeper = log[j].1 + step(m);
        let later = log[j].2 + 1;
        let k = choose|k: int| found_at(log, k, m, deeper, later);
        assert(found_at(log, k, m, depth_of(path), (path.len() - 1) as nat));
    } else {
        assert(path.last() == root);
        assert(depth_of(path) == 0);
        assert(found_at(log, 0, root, 0, 0));
    }
}

/// Where everything that was found on chains with fewer than `h` packages after the root has
/// been dealt with, the ends of those chains can be used, and chains with one package more
/// are within the limit.
proof fn lemma_level(
    crates: Crates,
    sel: Map<NamesView, VersionView>,
    root: NamesView,
    recorded: Set<Pinned>,
    log: Seq<Find>,
    head: int,
    h: nat,
)
    requires
        done(crates, sel, recorded, log, head),
        log.len() > 0,
        log[0] == (root, 0nat, 0nat),
        forall|i: int| head <= i < log.len() ==> h <= (#[trigger] log[i]).2,
    ensures
        forall|path: Seq<NamesView>| #[trigger]
            chain(crates, sel, root, path) && path.len() <= h + 1 ==> depth_of(path)
                <= DEPTH_LIMIT && found(log, path.last(), depth_of(path), (path.len() - 1) as nat),
        forall|path: Seq<NamesView>| #[trigger]
            chain(crates, sel, root, path) && path.len() <= h ==> usable(crates, sel, path.last())
                && recorded.contains((path.last(), sel[path.last()])),
{
    reveal(done);
    reveal(found);
    reveal(expanded);
    assert forall|path: Seq<NamesView>| #[trigger]
        chain(crates, sel, root, path) && path.len() <= h + 1 implies depth_of(path)
        <= DEPTH_LIMIT && found(log, path.last(), depth_of(path), (path.len() - 1) as nat) && (
    path.len() <= h ==> usable(crates, sel, path.last()) && recorded.contains(
        (path.last(), sel[path.last()]),
    )) by {
        lemma_end_is_found(crates, sel, root, recorded, log, head, path);
        if path.len() <= h {
            let d = depth_of(path);
            let g = (path.len() - 1) as nat;
            let j = choose|j: int| found_at(log, j, path.last(), d, g);
            assert(j < head);
            assert(expanded(crates, sel, recorded, log, log[j]));
        }
    }
}

/// Each package after the root adds at most one to the depth.
proof fn lemma_depth_below_len(path: Seq<NamesView>)
    ensures
        path.len() > 0 ==> depth_of(path) < path.len(),
    decreases path.len(),
{
    if path.len() > 1 {
        lemma_depth_below_len(path.drop_last());
    }
}

/// A package that is missing or cannot be used, with fewer than [`DEPTH_LIMIT`] packages
/// between the root and it, is come to before the limit.
pub proof fn a_near_break_comes_first(
    crates: Crates,
    sel: Map<NamesView, VersionView>,
    root: NamesView,
    path: Seq<NamesView>,
)
    requires
        chain(crates, sel, root, path),
        path.len() <= DEPTH_LIMIT,
        !usable(crates, sel, path.last()),
    ensures
        breaks_first(crates, sel, root),
{
    lemma_depth_below_len(path);
    assert forall|deep: Seq<NamesView>| #[trigger]
        chain(crates, sel, root, deep) && depth_of(deep) > DEPTH_LIMIT implies path.len() + 1
        < deep.len() by {
        lemma_depth_below_len(deep);
    }
}

/// Where the walk comes to a package, no other chain ends it before.
proof fn lemma_come_to(
    crates: Crates,
    sel: Map<NamesView, VersionView>,
    root: NamesView,
    recorded: Set<Pinned>,
    n: NamesView,
    d: nat,
    h: nat,
)
    requires
        reached(crates, sel, root, n, d, h),
        d <= DEPTH_LIMIT,
        forall|path: Seq<NamesView>| #[trigger]
            chain(crates, sel, root, path) && path.len() <= h + 1 ==> depth_of(path)
                <= DEPTH_LIMIT,
        forall|path: Seq<NamesView>| #[trigger]
            chain(crates, sel, root, path) && path.len() <= h ==> usable(crates, sel, path.last())
                && recorded.contains((path.last(), sel[path.last()])),
    ensures
        sel.contains_key(n) ==> walked(crates, sel, root, (n, sel[n])),
        !usable(crates, sel, n) ==> broken(crates, sel, root) && !limit_first(crates, sel, root),
        !usable(crates, sel, n) ==> forall|p: Pinned| #[trigger]
            surely_walked(crates, sel, root, p) ==> recorded.contains(p),
{
    reveal(reached);
    let path = choose|path: Seq<NamesView>| #[trigger]
        chain(crates, sel, root, path) && depth_of(path) == d && path.len() == h + 1
            && path.last() == n;
    assert forall|other: Seq<NamesView>| #[trigger]
        chain(crates, sel, root, other) && !usable(crates, sel, other.last()) implies path.len()
        <= other.len() by {}
    assert forall|other: Seq<NamesView>| #[trigger]
        chain(crates, sel, root, other) && depth_of(other) > DEPTH_LIMIT implies path.len()
        < other.len() by {}
    assert(may_come_to(crates, sel, root, path));
    if !usable(crates, sel, n) {
        assert forall|p: Pinned| #[trigger] surely_walked(crates, sel, root, p) implies recorded.contains(
            p,
        ) by {
            let end = choose|end: Seq<NamesView>| #[trigger]
                must_come_to(crates, sel, root, end) && end.last() == p.0;
            assert(end.len() < path.len());
        }
    }
}

/// Where the walk goes beyond the limit, nothing that is missing or cannot be used is nearer.
proof fn lemma_went_beyond(
    crates: Crates,
    sel: Map<NamesView, VersionView>,
    root: NamesView,
    recorded: Set<Pinned>,
    m: NamesView,
    d: nat,
    h: nat,
)
    requires
        reached(crates, sel, root, m, d, h + 1),
        d > DEPTH_LIMIT,
        forall|path: Seq<NamesView>| #[trigger]
            chain(crates, sel, root, path) && path.len() <= h ==> usable(crates, sel, path.last())
                && recorded.contains((path.last(), sel[path.last()])),
    ensures
        too_deep(crates, sel, root),
        !breaks_first(crates, sel, root),
        forall|p: Pinned| #[trigger]
            surely_walked(crates, sel, root, p) ==> recorded.contains(p),
{
    reveal(reached);
    let deep = choose|path: Seq<NamesView>| #[trigger]
        chain(crates, sel, root, path) && depth_of(path) == d && path.len() == h + 2
            && path.last() == m;
    assert(chain(crates, sel, root, deep));
    assert forall|p: Pinned| #[trigger] surely_walked(crates, sel, root, p) implies recorded.contains(
        p,
    ) by {
        let end = choose|end: Seq<NamesView>| #[trigger]
            must_come_to(crates, sel, root, end) && end.last() == p.0;
        assert(end.len() + 1 < deep.len());
    }
}

/// A package is found at a greater depth than before, and put at the end of the queue.
proof fn lemma_log_push(
    crates: Crates,
    sel: Map<NamesView, VersionView>,
    root: NamesView,
    recorded: Set<Pinned>,
    depths: Map<NamesView, usize>,
    que: Seq<(Names, usize)>,
    log: Seq<Find>,
    head: int,
    next: (Names, usize),
    h: nat,
)
    requires
        log_fits(crates, sel, root, depths, log),
        queue_of(que, log, head),
        0 < head <= log.len(),
        done(crates, sel, recorded, log, head - 1),
        in_levels(log, h),
        label(depths, next.0@) < next.1 <= DEPTH_LIMIT,
        reached(crates, sel, root, next.0@, next.1 as nat, h),
    ensures
        ({
            let more = log.push((next.0@, next.1 as nat, h));
            &&& log_fits(crates, sel, root, depths.insert(next.0@, next.1), more)
            &&& queue_of(que.push(next), more, head)
            &&& done(crates, sel, recorded, more, head - 1)
            &&& in_levels(more, h)
            &&& found(more, next.0@, next.1 as nat, h)
            &&& forall|m: NamesView, d: nat, g: nat| #[trigger]
                found(log, m, d, g) ==> found(more, m, d, g)
        }),
{
    reveal(log_fits);
    reveal(queue_of);
    reveal(in_levels);
    reveal(found);
    let e: Find = (next.0@, next.1 as nat, h);
    let more = log.push(e);
    let deeper = depths.insert(next.0@, next.1);
    assert(more.take(log.len() as int) =~= log);
    lemma_done(crates, sel, recorded, recorded, log, more, head - 1);
    assert(found_at(more, log.len() as int, next.0@, next.1 as nat, h));
    assert forall|i: int| 0 < i < more.len() implies 1 <= (#[trigger] more[i]).1 <= label(
        deeper,
        more[i].0,
    ) by {
        if i < log.len() {
            assert(more[i] == log[i]);
        }
    }
    assert forall|m: NamesView| #[trigger] deeper.contains_key(m) implies deeper[m] >= 1 && exists|
        j: int,
    |
        0 <= j < more.len() && (#[trigger] more[j]).0 == m && more[j].1 == deeper[m] by {
        if m == next.0@ {
            assert(more[log.len() as int] == e);
        } else {
            assert(depths.contains_key(m));
            let j = choose|j: int|
                0 <= j < log.len() && (#[trigger] log[j]).0 == m && log[j].1 == depths[m];
            assert(more[j] == log[j]);
        }
    }
    assert forall|i: int| 0 <= i < more.len() implies (#[trigger] more[i]).1 <= DEPTH_LIMIT && reached(
        crates,
        sel,
        root,
        more[i].0,
        more[i].1,
        more[i].2,
    ) by {
        if i < log.len() {
            assert(more[i] == log[i]);
        }
    }
}

/// The walk starts at the root.
proof fn lemma_start(
    crates: Crates,
    sel: Map<NamesView, VersionView>,
    recorded: Set<Pinned>,
    root: Names,
)
    ensures
        ({
            let log: Seq<Find> = seq![(root@, 0nat, 0nat)];
            &&& queue_of(seq![(root, 0usize)], log, 0)
            &&& log_fits(crates, sel, root@, Map::empty(), log)
            &&& done(crates, sel, recorded, log, 0)
            &&& in_levels(log, 1)
        }),
{
    reveal(queue_of);
    reveal(log_fits);
    reveal(done);
    reveal(in_levels);
    reveal(reached);
    let path = seq![root@];
    assert(chain(crates, sel, root@, path) && depth_of(path) == 0 && path.last() == root@);
}

/// The first of the queue is the next of what was found, and everything on shorter chains
/// has been dealt with.
proof fn lemma_pop(
    crates: Crates,
    sel: Map<NamesView, VersionView>,
    root: NamesView,
    recorded: Set<Pinned>,
    depths: Map<NamesView, usize>,
    que: Seq<(Names, usize)>,
    log: Seq<Find>,
    head: int,
)
    requires
        que.len() > 0,
        0 <= head <= log.len(),
        queue_of(que, log, head),
        log_fits(crates, sel, root, depths, log),
        done(crates, sel, recorded, log, head),
        in_levels(log, log[head].2 + 1),
    ensures
        head < log.len(),
        queue_of(que.skip(1), log, head + 1),
        log[head] == (que[0].0@, que[0].1 as nat, log[head].2),
        que[0].1 <= DEPTH_LIMIT,
        reached(crates, sel, root, que[0].0@, que[0].1 as nat, log[head].2),
        forall|path: Seq<NamesView>| #[trigger]
            chain(crates, sel, root, path) && path.len() <= log[head].2 + 1 ==> depth_of(path)
                <= DEPTH_LIMIT,
        forall|path: Seq<NamesView>| #[trigger]
            chain(crates, sel, root, path) && path.len() <= log[head].2 ==> usable(
                crates,
                sel,
                path.last(),
            ) && recorded.contains((path.last(), sel[path.last()])),
{
    reveal(queue_of);
    reveal(log_fits);
    assert(que[0].0@ == log[head].0);
    assert forall|i: int| head <= i < log.len() implies log[head].2 <= (#[trigger] log[i]).2 by {
        reveal(in_levels);
    }
    lemma_level(crates, sel, root, recorded, log, head, log[head].2);
    assert forall|i: int| 0 <= i < que.len() - 1 implies (#[trigger] que.skip(1)[i]).0@ == log[head
        + 1 + i].0 && que.skip(1)[i].1 == log[head + 1 + i].1 by {
        assert(que.skip(1)[i] == que[i + 1]);
    }
}

/// A package that is demanded at a depth that is not new was found before.
proof fn lemma_known(
    crates: Crates,
    sel: Map<NamesView, VersionView>,
    root: NamesView,
    depths: Map<NamesView, usize>,
    log: Seq<Find>,
    m: NamesView,
    d: nat,
    h: nat,
)
    requires
        log_fits(crates, sel, root, depths, log),
        in_levels(log, h),
        0 < d <= label(depths, m),
    ensures
        found(log, m, d, h),
{
    reveal(log_fits);
    reveal(in_levels);
    reveal(found);
    let j = choose|j: int|
        0 <= j < log.len() && (#[trigger] log[j]).0 == m && log[j].1 == depths[m];
    assert(found_at(log, j, m, d, h));
}

/// When what a package demands has been found, it has been dealt with.
proof fn lemma_expanded(
    crates: Crates,
    sel: Map<NamesView, VersionView>,
    recorded: Set<Pinned>,
    log: Seq<Find>,
    head: int,
)
    requires
        0 < head <= log.len(),
        done(crates, sel, recorded, log, head - 1),
        in_levels(log, log[head - 1].2 + 1),
        usable(crates, sel, log[head - 1].0),
        recorded.contains((log[head - 1].0, sel[log[head - 1].0])),
        forall|m: NamesView| #[trigger]
            leads_to(crates, sel, log[head - 1].0, m) ==> log[head - 1].1 + step(m)
                <= DEPTH_LIMIT && (log[head - 1].1 + step(m) > 0 ==> found(
                log,
                m,
                log[head - 1].1 + step(m),
                log[head - 1].2 + 1,
            )),
    ensures
        done(crates, sel, recorded, log, head),
        head < log.len() ==> in_levels(log, log[head].2 + 1),
{
    reveal(done);
    reveal(expanded);
    reveal(in_levels);
}

/// When all that was found has been dealt with, no chain was missed, and the depths are
/// those of the deepest chains.
proof fn lemma_complete(
    crates: Crates,
    sel: Map<NamesView, VersionView>,
    root: NamesView,
    recorded: Set<Pinned>,
    depths: Map<NamesView, usize>,
    log: Seq<Find>,
)
    requires
        log_fits(crates, sel, root, depths, log),
        done(crates, sel, recorded, log, log.len() as int),
    ensures
        forall|path: Seq<NamesView>| #[trigger]
            chain(crates, sel, root, path) ==> {
                &&& usable(crates, sel, path.last())
                &&& recorded.contains((path.last(), sel[path.last()]))
                &&& depth_of(path) <= label(depths, path.last())
                &&& depth_of(path) <= DEPTH_LIMIT
            },
        forall|m: NamesView| #[trigger]
            depths.contains_key(m) ==> exists|path: Seq<NamesView>| #[trigger]
                chain(crates, sel, root, path) && depth_of(path) == depths[m],
{
    reveal(log_fits);
    assert forall|path: Seq<NamesView>| #[trigger] chain(crates, sel, root, path) implies {
        &&& usable(crates, sel, path.last())
        &&& recorded.contains((path.last(), sel[path.last()]))
        &&& depth_of(path) <= label(depths, path.last())
        &&& depth_of(path) <= DEPTH_LIMIT
    } by {
        lemma_level(crates, sel, root, recorded, log, log.len() as int, path.len());
        reveal(found);
        let d = depth_of(path);
        let g = (path.len() - 1) as nat;
        let j = choose|j: int| found_at(log, j, path.last(), d, g);
        if d > 0 {
            assert(log[j].1 <= label(depths, path.last()));
        }
    }
    assert forall|m: NamesView| #[trigger] depths.contains_key(m) implies exists|
        path: Seq<NamesView>,
    | #[trigger] chain(crates, sel, root, path) && depth_of(path) == depths[m] by {
        let j = choose|j: int|
            0 <= j < log.len() && (#[trigger] log[j]).0 == m && log[j].1 == depths[m];
        reveal(reached);
        assert(reached(crates, sel, root, log[j].0, log[j].1, log[j].2));
    }
}

impl<'c> Index<'c> {
    /// How many crates the longest chain of dependencies has, from the root on; at most
    /// [`DEPTH_LIMIT`]. `None` if the walk comes to a package that is not selected or
    /// cannot be used. Where one chain ends so and another goes beyond the limit, what
    /// takes fewer packages is found first; where both take as many, either may be.
    pub fn depth(&mut self, root: &Names, pubmap: &SelectedDependencies) -> (r: Option<usize>)
        requires
            walkable(old(self).crates(), pubmap@, root@),
        ensures
            final(self).crates() == old(self).crates(),
            final(self).calls() == old(self).calls(),
            old(self).recorded().subset_of(final(self).recorded()),
            forall|p: Pinned| #[trigger]
                final(self).recorded().contains(p) ==> old(self).recorded().contains(p) || walked(
                    old(self).crates(),
                    pubmap@,
                    root@,
                    p,
                ),
            forall|p: Pinned| #[trigger]
                surely_walked(old(self).crates(), pubmap@, root@, p)
                    ==> final(self).recorded().contains(p),
            match r {
                None => {
                    &&& broken(old(self).crates(), pubmap@, root@)
                    &&& !limit_first(old(self).crates(), pubmap@, root@)
                },
                Some(d) => {
                    ||| {
                        &&& d == DEPTH_LIMIT
                        &&& too_deep(old(self).crates(), pubmap@, root@)
                        &&& !breaks_first(old(self).crates(), pubmap@, root@)
                    }
                    ||| {
                        &&& !broken(old(self).crates(), pubmap@, root@)
                        &&& !too_deep(old(self).crates(), pubmap@, root@)
                        &&& deepest(old(self).crates(), pubmap@, root@, d as nat)
                    }
                },
            },
            (exists|path: Seq<NamesView>| #[trigger]
                chain(old(self).crates(), pubmap@, root@, path) && path.len() <= DEPTH_LIMIT
                    && !usable(old(self).crates(), pubmap@, path.last())) ==> r is None,
    {
        proof {
            let crates = self.crates();
            assert forall|path: Seq<NamesView>| #[trigger]
                chain(crates, pubmap@, root@, path) && path.len() <= DEPTH_LIMIT && !usable(
                    crates,
                    pubmap@,
                    path.last(),
                ) implies breaks_first(crates, pubmap@, root@) && broken(
                crates,
                pubmap@,
                root@,
            ) by {
                a_near_break_comes_first(crates, pubmap@, root@, path);
            }
        }
        self.walk(root, pubmap)
    }

    /// The walk itself: first what the root demands, then what that demands, and so on.
    #[verifier::spinoff_prover]
    fn walk(&mut self, root: &Names, pubmap: &SelectedDependencies) -> (r: Option<usize>)
        requires
            walkable(old(self).crates(), pubmap@, root@),
        ensures
            final(self).crates() == old(self).crates(),
            final(self).calls() == old(self).calls(),
            old(self).recorded().subset_of(final(self).recorded()),
            forall|p: Pinned| #[trigger]
                final(self).recorded().contains(p) ==> old(self).recorded().contains(p) || walked(
                    old(self).crates(),
                    pubmap@,
                    root@,
                    p,
                ),
            forall|p: Pinned| #[trigger]
                surely_walked(old(self).crates(), pubmap@, root@, p)
                    ==> final(self).recorded().contains(p),
            match r {
                None => {
                    &&& broken(old(self).crates(), pubmap@, root@)
                    &&& !limit_first(old(self).crates(), pubmap@, root@)
                },
                Some(d) => {
                    ||| {
                        &&& d == DEPTH_LIMIT
                        &&& too_deep(old(self).crates(), pubmap@, root@)
                        &&& !breaks_first(old(self).crates(), pubmap@, root@)
                    }
                    ||| {
                        &&& !broken(old(self).crates(), pubmap@, root@)
                        &&& !too_deep(old(self).crates(), pubmap@, root@)
                        &&& deepest(old(self).crates(), pubmap@, root@, d as nat)
                    }
                },
            },
    {
        let ghost crates = self.crates();
        let ghost sel = pubmap@;
        let ghost top = root@;
        proof {
            pubmap.is_finite();
        }
        let ghost places = lemma_cover(crates, sel);
        let mut depths: NameMap<usize> = NameMap::new();
        let mut que: VecDeque<(Names, usize)> = VecDeque::new();
        que.push_back((root.clone(), 0));
        let ghost mut log: Seq<Find> = seq![(top, 0nat, 0nat)];
        let ghost mut head: int = 0;
        proof {
            lemma_start(crates, sel, self.recorded(), *root);
            assert(que@ =~= seq![(*root, 0usize)]);
            assert(depths@ =~= Map::<NamesView, usize>::empty());
        }
        loop
            invariant
                crates == old(self).crates(),
                sel == pubmap@,
                top == root@,
                walkable(crates, sel, top),
                covers(crates, sel, places),
                self.crates() == crates,
                self.calls() == old(self).calls(),
                old(self).recorded().subset_of(self.recorded()),
                forall|p: Pinned| #[trigger]
                    self.recorded().contains(p) ==> old(self).recorded().contains(p) || walked(
                        crates,
                        sel,
                        top,
                        p,
                    ),
                0 <= head <= log.len(),
                queue_of(que@, log, head),
                log_fits(crates, sel, top, depths@, log),
                done(crates, sel, self.recorded(), log, head),
                head < log.len() ==> in_levels(log, log[head].2 + 1),
                que@.len() == log.len() - head,
            ensures
                head == log.len(),
            decreases room(depths@, places), que@.len(),
        {
            let ghost que_before = que@;
            let (n, n_d): (Names, usize) = match que.pop_front() {
                None => break,
                Some(next) => next,
            };
            let ghost nv = n@;
            let ghost h = log[head].2;
            proof {
                lemma_pop(crates, sel, top, self.recorded(), depths@, que_before, log, head);
                lemma_come_to(crates, sel, top, self.recorded(), nv, n_d as nat, h);
            }
            let version: &Version = match pubmap.get(&n) {
                None => {
                    return None;
                },
                Some(version) => version,
            };
            proof {
                assert(walked(crates, sel, top, (nv, version@)));
            }
            let ghost recorded_before = self.recorded();
            let deps = match self.get_dependencies(&n, version) {
                Ok(Dependencies::Available(deps)) => deps,
                _ => {
                    return None;
                },
            };
            let list = deps.entries();
            let ghost room_before = room(depths@, places);
            let ghost recorded_now = self.recorded();
            proof {
                assert(log.take(log.len() as int) =~= log);
                lemma_done(crates, sel, recorded_before, recorded_now, log, log, head);
                head = head + 1;
                assert(que@ =~= que_before.skip(1));
            }
            let mut k: usize = 0;
            while k < list.len()
                invariant
                    k <= list.len(),
                    deps@ == dependencies_of(crates, nv, sel[nv])->Available_0,
                    usable(crates, sel, nv),
                    recorded_now == self.recorded(),
                    recorded_now.contains((nv, sel[nv])),
                    forall|i: int|
                        0 <= i < list@.len() ==> deps@.contains_key((#[trigger] list@[i]).0@),
                    n_d <= DEPTH_LIMIT,
                    reached(crates, sel, top, nv, n_d as nat, h),
                    covers(crates, sel, places),
                    0 < head <= log.len(),
                    log[head - 1] == (nv, n_d as nat, h),
                    queue_of(que@, log, head),
                    que@.len() == log.len() - head,
                    log_fits(crates, sel, top, depths@, log),
                    done(crates, sel, recorded_now, log, head - 1),
                    in_levels(log, h + 1),
                    forall|i: int|
                        0 <= i < k ==> n_d + step((#[trigger] list@[i]).0@) <= DEPTH_LIMIT && (n_d
                            + step(list@[i].0@) > 0 ==> found(
                            log,
                            list@[i].0@,
                            n_d as nat + step(list@[i].0@),
                            h + 1,
                        )),
                    room(depths@, places) <= room_before,
                    que@.len() > que_before.len() - 1 ==> room(depths@, places) < room_before,
                    crates == old(self).crates(),
                    sel == pubmap@,
                    top == root@,
                    self.calls() == old(self).calls(),
                    self.crates() == crates,
                    forall|path: Seq<NamesView>| #[trigger]
                        chain(crates, sel, top, path) && path.len() <= h ==> usable(
                            crates,
                            sel,
                            path.last(),
                        ) && recorded_now.contains((path.last(), sel[path.last()])),
                    old(self).recorded().subset_of(recorded_now),
                    forall|p: Pinned| #[trigger]
                        recorded_now.contains(p) ==> old(self).recorded().contains(p) || walked(
                            crates,
                            sel,
                            top,
                            p,
                        ),
                decreases list.len() - k,
            {
                let dep = &list[k].0;
                let ghost m = dep@;
                assert(leads_to(crates, sel, nv, m));
                let depth: usize = if dep.is_real() {
                    n_d + 1
                } else {
                    n_d
                };
                assert(depth == n_d + step(m));
                if depth > DEPTH_LIMIT {
                    proof {
                        lemma_extend(crates, sel, top, nv, n_d as nat, h, m);
                        lemma_went_beyond(crates, sel, top, recorded_now, m, depth as nat, h);
                    }
                    return Some(DEPTH_LIMIT);
                }
                let old_depth: usize = match depths.get(dep) {
                    Some(d) => *d,
                    None => 0,
                };
                assert(old_depth == label(depths@, m));
                if depth > old_depth {
                    let ghost log_before = log;
                    proof {
                        lemma_extend(crates, sel, top, nv, n_d as nat, h, m);
                        lemma_room(depths@, places, m, depth);
                        log = log.push((m, depth as nat, h + 1));
                        lemma_log_push(
                            crates,
                            sel,
                            top,
                            recorded_now,
                            depths@,
                            que@,
                            log_before,
                            head,
                            (*dep, depth),
                            h + 1,
                        );
                    }
                    depths.insert(dep.clone(), depth);
                    que.push_back((dep.clone(), depth));
                } else if depth > 0 {
                    proof {
                        lemma_known(crates, sel, top, depths@, log, m, depth as nat, h + 1);
                    }
                }
                k += 1;
            }
            proof {
                assert forall|m: NamesView| #[trigger] leads_to(crates, sel, nv, m) implies n_d + step(
                    m,
                ) <= DEPTH_LIMIT && (n_d + step(m) > 0 ==> found(
                    log,
                    m,
                    n_d as nat + step(m),
                    h + 1,
                )) by {
                    assert(deps@.contains_key(m));
                    let i = choose|i: int| 0 <= i < list@.len() && (#[trigger] list@[i]).0@ == m;
                    assert(list@[i].0@ == m);
                }
                lemma_expanded(crates, sel, recorded_now, log, head);
            }
        }
        let mut best: usize = 0;
        let list = depths.entries();
        let mut k: usize = 0;
        while k < list.len()
            invariant
                k <= list.len(),
                forall|i: int| 0 <= i < k ==> (#[trigger] list@[i]).1 <= best,
                best == 0 || exists|m: NamesView| #[trigger]
                    depths@.contains_key(m) && depths@[m] == best,
                forall|i: int|
                    0 <= i < list@.len() ==> depths@.contains_key((#[trigger] list@[i]).0@)
                        && depths@[list@[i].0@] == list@[i].1,
            decreases list.len() - k,
        {
            if list[k].1 > best {
                best = list[k].1;
                assert(depths@.contains_key(list@[k as int].0@));
            }
            k += 1;
        }
        proof {
            lemma_complete(crates, sel, top, self.recorded(), depths@, log);
            assert forall|path: Seq<NamesView>| #[trigger] chain(
                crates,
                sel,
                top,
                path,
            ) implies depth_of(path) <= best by {
                let m = path.last();
                if depths@.contains_key(m) {
                    let i = choose|i: int| 0 <= i < list@.len() && (#[trigger] list@[i]).0@ == m;
                    assert(list@[i].1 <= best);
                }
            }
            if best == 0 {
                let path = seq![top];
                assert(chain(crates, sel, top, path) && depth_of(path) == 0);
            }
        }
        Some(best)
    }
}

/// A chain starts at the root and goes on from each package, which is selected, to one that
/// it demands at the version that it has; from the root only to a crate.
pub proof fn what_a_chain_is(
    crates: Crates,
    sel: Map<NamesView, VersionView>,
    root: NamesView,
    path: Seq<NamesView>,
)
    ensures
        chain(crates, sel, root, path) <==> {
            &&& path.len() > 0
            &&& path[0] == root
            &&& path.len() > 1 ==> path[1] is Bucket
            &&& forall|i: int|
                0 <= i < path.len() - 1 ==> sel.contains_key(#[trigger] path[i]) && (
                dependencies_of(crates, path[i], sel[path[i]]) matches DependenciesView::Available(
                    deps,
                ) && deps.contains_key(path[i + 1]))
        },
{
    let inline = {
        &&& path.len() > 0
        &&& path[0] == root
        &&& path.len() > 1 ==> path[1] is Bucket
        &&& forall|i: int|
            0 <= i < path.len() - 1 ==> sel.contains_key(#[trigger] path[i]) && (dependencies_of(
                crates,
                path[i],
                sel[path[i]],
            ) matches DependenciesView::Available(deps) && deps.contains_key(path[i + 1]))
    };
    if chain(crates, sel, root, path) {
        assert forall|i: int| 0 <= i < path.len() - 1 implies sel.contains_key(#[trigger] path[i])
            && (dependencies_of(
            crates,
            path[i],
            sel[path[i]],
        ) matches DependenciesView::Available(deps) && deps.contains_key(path[i + 1])) by {
            assert(leads_to(crates, sel, path[i], path[i + 1]));
        }
    }
    if inline {
        assert forall|i: int| 0 <= i < path.len() - 1 implies leads_to(
            crates,
            sel,
            #[trigger] path[i],
            path[i + 1],
        ) by {}
    }
}

/// The depth of a chain is the number of crates in it, without the root.
pub proof fn the_depth_is_the_number_of_crates(path: Seq<NamesView>)
    requires
        path.len() > 0,
    ensures
        depth_of(path) == path.skip(1).filter(|n: NamesView| n is Bucket).len(),
    decreases path.len(),
{
    reveal(Seq::filter);
    let rest = path.skip(1);
    if path.len() > 1 {
        let short = path.drop_last();
        the_depth_is_the_number_of_crates(short);
        assert(short.skip(1) =~= rest.drop_last());
        assert(rest.last() == path.last());
    }
}

/// What ends the walk: a chain breaks if it ends at a package that is not selected or, at the
/// version that it has, cannot be used; it goes beyond the limit with its hundredth crate. A
/// break is met first if each chain that goes beyond the limit is longer by two packages or
/// more, and the limit if no chain that breaks is shorter than one that goes beyond it.
pub proof fn what_ends_the_walk(
    crates: Crates,
    sel: Map<NamesView, VersionView>,
    root: NamesView,
    d: nat,
)
    ensures
        broken(crates, sel, root) <==> exists|path: Seq<NamesView>| #[trigger]
            chain(crates, sel, root, path) && depth_of(path) < 100 && !(sel.contains_key(
                path.last(),
            ) && dependencies_of(crates, path.last(), sel[path.last()]) is Available),
        too_deep(crates, sel, root) <==> exists|path: Seq<NamesView>| #[trigger]
            chain(crates, sel, root, path) && depth_of(path) >= 100,
        deepest(crates, sel, root, d) <==> (exists|path: Seq<NamesView>| #[trigger]
            chain(crates, sel, root, path) && depth_of(path) == d) && (forall|
            path: Seq<NamesView>,
        | #[trigger] chain(crates, sel, root, path) ==> depth_of(path) <= d),
        breaks_first(crates, sel, root) <==> exists|path: Seq<NamesView>| #[trigger]
            chain(crates, sel, root, path) && depth_of(path) < 100 && !(sel.contains_key(
                path.last(),
            ) && dependencies_of(crates, path.last(), sel[path.last()]) is Available) && (forall|
                deep: Seq<NamesView>,
            | #[trigger]
                chain(crates, sel, root, deep) && depth_of(deep) >= 100 ==> path.len() + 1
                    < deep.len()),
        limit_first(crates, sel, root) <==> exists|deep: Seq<NamesView>| #[trigger]
            chain(crates, sel, root, deep) && depth_of(deep) >= 100 && (forall|
                path: Seq<NamesView>,
            | #[trigger]
                chain(crates, sel, root, path) && depth_of(path) < 100 && !(sel.contains_key(
                    path.last(),
                ) && dependencies_of(crates, path.last(), sel[path.last()]) is Available)
                    ==> deep.len() <= path.len()),
{
    assert forall|n: NamesView| #[trigger] usable(crates, sel, n) == (sel.contains_key(n)
        && dependencies_of(crates, n, sel[n]) is Available) by {}
}

/// Where no chain breaks and none goes beyond the limit, the walk comes to the selected
/// package at the end of every chain, and to no other.
pub proof fn an_unbroken_walk_comes_everywhere(
    crates: Crates,
    sel: Map<NamesView, VersionView>,
    root: NamesView,
    p: Pinned,
)
    requires
        !broken(crates, sel, root),
        !too_deep(crates, sel, root),
    ensures
        walked(crates, sel, root, p) <==> sel.contains_key(p.0) && sel[p.0] == p.1 && exists|
            path: Seq<NamesView>,
        | #[trigger] chain(crates, sel, root, path) && path.last() == p.0,
        surely_walked(crates, sel, root, p) <==> walked(crates, sel, root, p),
{
    assert forall|path: Seq<NamesView>| #[trigger] chain(crates, sel, root, path) implies {
        &&& may_come_to(crates, sel, root, path)
        &&& must_come_to(crates, sel, root, path)
    } by {
        assert forall|other: Seq<NamesView>| #[trigger]
            chain(crates, sel, root, other) implies usable(crates, sel, other.last()) && depth_of(
            other,
        ) <= DEPTH_LIMIT by {}
    }
    if walked(crates, sel, root, p) {
        let path = choose|path: Seq<NamesView>| #[trigger]
            may_come_to(crates, sel, root, path) && path.last() == p.0;
        assert(must_come_to(crates, sel, root, path));
    }
    if surely_walked(crates, sel, root, p) {
        let path = choose|path: Seq<NamesView>| #[trigger]
            must_come_to(crates, sel, root, path) && path.last() == p.0;
        assert(may_come_to(crates, sel, root, path));
    }
    if exists|path: Seq<NamesView>| #[trigger]
        chain(crates, sel, root, path) && path.last() == p.0 {
        let path = choose|path: Seq<NamesView>| #[trigger]
            chain(crates, sel, root, path) && path.last() == p.0;
        assert(may_come_to(crates, sel, root, path));
    }
}

/// Whatever the walk can come to lies at the end of a chain; and it comes to the end of every
/// chain that is shorter than each that breaks and by two shorter than each that goes beyond
/// the limit.
pub proof fn how_far_the_walk_comes(
    crates: Crates,
    sel: Map<NamesView, VersionView>,
    root: NamesView,
    p: Pinned,
)
    ensures
        walked(crates, sel, root, p) <==> sel.contains_key(p.0) && sel[p.0] == p.1 && exists|
            path: Seq<NamesView>,
        | #[trigger]
            chain(crates, sel, root, path) && path.last() == p.0 && (forall|
                other: Seq<NamesView>,
            | #[trigger]
                chain(crates, sel, root, other) ==> (!(sel.contains_key(other.last())
                    && dependencies_of(crates, other.last(), sel[other.last()]) is Available)
                    ==> path.len() <= other.len()) && (depth_of(other) >= 100 ==> path.len()
                    < other.len())),
        surely_walked(crates, sel, root, p) <==> sel.contains_key(p.0) && sel[p.0] == p.1
            && exists|path: Seq<NamesView>| #[trigger]
            chain(crates, sel, root, path) && path.last() == p.0 && (forall|
                other: Seq<NamesView>,
            | #[trigger]
                chain(crates, sel, root, other) ==> (!(sel.contains_key(other.last())
                    && dependencies_of(crates, other.last(), sel[other.last()]) is Available)
                    ==> path.len() < other.len()) && (depth_of(other) >= 100 ==> path.len() + 1
                    < other.len())),
{
    assert forall|n: NamesView| #[trigger] usable(crates, sel, n) == (sel.contains_key(n)
        && dependencies_of(crates, n, sel[n]) is Available) by {}
    assert forall|path: Seq<NamesView>| #[trigger]
        may_come_to(crates, sel, root, path) == (chain(crates, sel, root, path) && (forall|
            other: Seq<NamesView>,
        | #[trigger]
            chain(crates, sel, root, other) ==> (!(sel.contains_key(other.last())
                && dependencies_of(crates, other.last(), sel[other.last()]) is Available)
                ==> path.len() <= other.len()) && (depth_of(other) >= 100 ==> path.len()
                < other.len()))) by {}
    assert forall|path: Seq<NamesView>| #[trigger]
        must_come_to(crates, sel, root, path) == (chain(crates, sel, root, path) && (forall|
            other: Seq<NamesView>,
        | #[trigger]
            chain(crates, sel, root, other) ==> (!(sel.contains_key(other.last())
                && dependencies_of(crates, other.last(), sel[other.last()]) is Available)
                ==> path.len() < other.len()) && (depth_of(other) >= 100 ==> path.len() + 1
                < other.len()))) by {}
    if exists|path: Seq<NamesView>| #[trigger]
        chain(crates, sel, root, path) && path.last() == p.0 && (forall|other: Seq<NamesView>|
         #[trigger]
            chain(crates, sel, root, other) ==> (!(sel.contains_key(other.last())
                && dependencies_of(crates, other.last(), sel[other.last()]) is Available)
                ==> path.len() <= other.len()) && (depth_of(other) >= 100 ==> path.len()
                < other.len())) {
        let path = choose|path: Seq<NamesView>| #[trigger]
            chain(crates, sel, root, path) && path.last() == p.0 && (forall|other: Seq<NamesView>|
             #[trigger]
                chain(crates, sel, root, other) ==> (!(sel.contains_key(other.last())
                    && dependencies_of(crates, other.last(), sel[other.last()]) is Available)
                    ==> path.len() <= other.len()) && (depth_of(other) >= 100 ==> path.len()
                    < other.len()));
        assert(may_come_to(crates, sel, root, path));
    }
    if exists|path: Seq<NamesView>| #[trigger]
        chain(crates, sel, root, path) && path.last() == p.0 && (forall|other: Seq<NamesView>|
         #[trigger]
            chain(crates, sel, root, other) ==> (!(sel.contains_key(other.last())
                && dependencies_of(crates, other.last(), sel[other.last()]) is Available)
                ==> path.len() < other.len()) && (depth_of(other) >= 100 ==> path.len() + 1
                < other.len())) {
        let path = choose|path: Seq<NamesView>| #[trigger]
            chain(crates, sel, root, path) && path.last() == p.0 && (forall|other: Seq<NamesView>|
             #[trigger]
                chain(crates, sel, root, other) ==> (!(sel.contains_key(other.last())
                    && dependencies_of(crates, other.last(), sel[other.last()]) is Available)
                    ==> path.len() < other.len()) && (depth_of(other) >= 100 ==> path.len() + 1
                    < other.len()));
        assert(must_come_to(crates, sel, root, path));
    }
}

} // verus!
