//! What is made of a resolution: the line of the summary, and the files from which it
//! can be run again.

use vstd::prelude::*;
use crate::check::{checkable, consistent};
use crate::constraints::{Dependencies, DependenciesView, DependencyConstraints};
use crate::index_data::VersionData;
use crate::names::{new_bucket, Names, NamesView};
use crate::provider::{dependencies_of, Index, Pinned};
use crate::selection::SelectedDependencies;
use crate::text::{
    contains_text, is_before, occurs, text_before, text_order_is_strict, text_order_is_total,
    text_order_is_transitive,
};
use crate::version::{
    compatibility, lemma_version_chars, version_before, version_text_is_unique, SemverCompatibility,
    Version, VersionView,
};
use crate::walk::{breaks_first, broken, chain, limit_first, surely_walked, usable, walked, DEPTH_LIMIT};

verus! {

/// Whether a crate takes part: those of one large family do not.
pub fn takes_part(name: &str) -> (r: bool)
    ensures
        r == !occurs(name@, "solana"@),
{
    !contains_text(name, "solana")
}

/// The package that stands for a crate when it is the one to be resolved.
pub fn root_package(crt: &String, ver: &Version) -> (r: Names)
    ensures
        r@ == NamesView::Bucket(crt@, compatibility(ver@), true),
{
    new_bucket(crt.clone(), SemverCompatibility::of(ver), true)
}

/// How a resolution ended.
#[derive(Debug)]
pub enum Resolution {
    /// With a selection of packages.
    Solved(SelectedDependencies),
    /// With a proof that there is none.
    NoSolution,
    /// With an error.
    Failed,
}

/// A line of the summary.
#[derive(Debug)]
pub struct OutPutSummery {
    pub name: String,
    pub ver: Version,
    pub succeeded: bool,
    pub pubgrub_deps: usize,
    pub deps: usize,
}

/// The selected packages that stand for a crate of their own.
pub open spec fn real_packages(sel: Map<NamesView, VersionView>) -> Set<NamesView> {
    sel.dom().filter(|n: NamesView| n.is_real())
}

/// Counts the selected packages that stand for a crate of their own.
fn count_real(sel: &SelectedDependencies) -> (r: usize)
    ensures
        real_packages(sel@).finite(),
        r == real_packages(sel@).len(),
{
    let list = sel.entries();
    let mut count: usize = 0;
    let ghost mut seen: Set<NamesView> = Set::empty();
    let mut i: usize = 0;
    while i < list.len()
        invariant
            count <= i <= list.len(),
            seen.finite(),
            seen.len() == count,
            forall|n: NamesView| #[trigger]
                seen.contains(n) ==> n.is_real() && exists|j: int|
                    0 <= j < i && (#[trigger] list@[j]).0@ == n,
            forall|j: int|
                0 <= j < i && (#[trigger] list@[j]).0@.is_real() ==> seen.contains(list@[j].0@),
            forall|j: int, k: int|
                #![trigger list@[j], list@[k]]
                0 <= j < k < list@.len() ==> list@[j].0@ != list@[k].0@,
        decreases list.len() - i,
    {
        if list[i].0.is_real() {
            proof {
                let n = list@[i as int].0@;
                if seen.contains(n) {
                    let j = choose|j: int| 0 <= j < i && (#[trigger] list@[j]).0@ == n;
                    assert(list@[j].0@ != list@[i as int].0@);
                }
                seen = seen.insert(n);
            }
            count += 1;
        }
        i += 1;
    }
    proof {
        assert forall|n: NamesView| seen.contains(n) == real_packages(sel@).contains(n) by {
            if real_packages(sel@).contains(n) {
                assert(sel@.contains_key(n));
                let j = choose|j: int| 0 <= j < list@.len() && (#[trigger] list@[j]).0@ == n;
                assert(list@[j].0@.is_real());
            }
        }
        assert(seen =~= real_packages(sel@));
    }
    count
}

/// The line for the version `ver` of the crate `name`: whether there was a selection, how
/// many packages it has and how many of them are crates.
pub fn summarize(name: String, ver: Version, res: &Resolution) -> (r: OutPutSummery)
    ensures
        r.name == name,
        r.ver == ver,
        r.succeeded == (res is Solved),
        match *res {
            Resolution::Solved(sel) => r.pubgrub_deps == sel@.len() && r.deps == real_packages(
                sel@,
            ).len(),
            _ => r.pubgrub_deps == 0 && r.deps == 0,
        },
{
    match res {
        Resolution::Solved(sel) => OutPutSummery {
            name,
            ver,
            succeeded: true,
            pubgrub_deps: sel.len(),
            deps: count_real(sel),
        },
        _ => OutPutSummery { name, ver, succeeded: false, pubgrub_deps: 0, deps: 0 },
    }
}

/// What is to be done after a resolution.
#[derive(Debug, Clone, Copy, PartialEq, Eq, Structural)]
pub enum Verdict {
    /// Nothing more.
    Fine,
    /// The files are to be written.
    WriteFiles,
    /// The files are to be written, and then it is to be given up: the selection cannot be
    /// built.
    FailedCheck,
}

impl<'c> Index<'c> {
    /// Looks at how a resolution of `root` ended. A selection is checked; an error, or
    /// that it took long (`slow`), calls for the files.
    pub fn review(&mut self, root: &Names, res: &Resolution, slow: bool) -> (r: Verdict)
        requires
            res matches Resolution::Solved(sel) ==> checkable(old(self).crates(), sel@, root@),
        ensures
            final(self).crates() == old(self).crates(),
            final(self).calls() == old(self).calls(),
            old(self).recorded().subset_of(final(self).recorded()),
            forall|p: Pinned| #[trigger]
                final(self).recorded().contains(p) ==> old(self).recorded().contains(p) || (
                res matches Resolution::Solved(sel) && walked(
                    old(self).crates(),
                    sel@,
                    root@,
                    p,
                )),
            match *res {
                Resolution::Solved(sel) => {
                    let crates = old(self).crates();
                    let passed = if slow {
                        Verdict::WriteFiles
                    } else {
                        Verdict::Fine
                    };
                    &&& forall|p: Pinned| #[trigger]
                        surely_walked(crates, sel@, root@, p)
                            ==> final(self).recorded().contains(p)
                    &&& r == Verdict::FailedCheck || r == passed
                    &&& r == passed ==> consistent(crates, sel@) && !breaks_first(
                        crates,
                        sel@,
                        root@,
                    )
                    &&& consistent(crates, sel@) && (!broken(crates, sel@, root@) || limit_first(
                        crates,
                        sel@,
                        root@,
                    )) ==> r == passed
                    &&& (exists|path: Seq<NamesView>| #[trigger]
                        chain(crates, sel@, root@, path) && path.len() <= DEPTH_LIMIT && !usable(
                            crates,
                            sel@,
                            path.last(),
                        )) ==> r == Verdict::FailedCheck
                },
                Resolution::NoSolution => final(self).recorded() == old(self).recorded() && r
                    == if slow {
                    Verdict::WriteFiles
                } else {
                    Verdict::Fine
                },
                Resolution::Failed => final(self).recorded() == old(self).recorded() && r
                    == Verdict::WriteFiles,
            },
    {
        match res {
            Resolution::Solved(sel) => {
                if !self.check(root, sel) {
                    return Verdict::FailedCheck;
                }
            },
            Resolution::NoSolution => {},
            Resolution::Failed => {
                return Verdict::WriteFiles;
            },
        }
        if slow {
            Verdict::WriteFiles
        } else {
            Verdict::Fine
        }
    }
}

/// The name of a file about the crate that was resolved.
pub open spec fn file_name(dir: Seq<char>, root: Pinned) -> Seq<char> {
    dir + root.0.crate_name() + seq!['@'] + root.1.text() + ".ron"@
}

/// The name of a file tells which version of which crate it is about.
pub proof fn file_name_tells_the_root(dir: Seq<char>, p: Pinned, q: Pinned)
    requires
        p.1.valid(),
        q.1.valid(),
        file_name(dir, p) == file_name(dir, q),
    ensures
        p.0.crate_name() == q.0.crate_name(),
        p.1 == q.1,
{
    let (a, b) = (p.0.crate_name(), q.0.crate_name());
    let (x, y) = (p.1.text(), q.1.text());
    let (l, r) = (file_name(dir, p), file_name(dir, q));
    let n = (l.len() - ".ron"@.len()) as int;
    // the last `@` stands before the version
    assert(l[n - x.len() - 1] == '@' && r[n - y.len() - 1] == '@');
    if x.len() < y.len() {
        let k = y.len() - x.len() - 1;
        assert(r[n - x.len() - 1] == y[k]);
        lemma_version_chars(q.1, k);
    } else if y.len() < x.len() {
        let k = x.len() - y.len() - 1;
        assert(l[n - y.len() - 1] == x[k]);
        lemma_version_chars(p.1, k);
    }
    assert(x =~= l.subrange(n - x.len(), n));
    assert(y =~= r.subrange(n - y.len(), n));
    assert(a =~= l.subrange(dir.len() as int, n - x.len() - 1));
    assert(b =~= r.subrange(dir.len() as int, n - y.len() - 1));
    version_text_is_unique(p.1, q.1);
}

/// Some crate was resolved.
pub open spec fn has_root(recorded: Set<Pinned>) -> bool {
    exists|p: Pinned| #[trigger] recorded.contains(p) && p.0.is_root()
}

/// By the leftmost number that counts: the major number, then the minor, then the patch; and
/// then by that number.
pub open spec fn class_before(a: SemverCompatibility, b: SemverCompatibility) -> bool {
    match (a, b) {
        (SemverCompatibility::Major(m), SemverCompatibility::Major(n)) => m < n,
        (SemverCompatibility::Major(_), _) => true,
        (SemverCompatibility::Minor(_), SemverCompatibility::Major(_)) => false,
        (SemverCompatibility::Minor(m), SemverCompatibility::Minor(n)) => m < n,
        (SemverCompatibility::Minor(_), _) => true,
        (SemverCompatibility::Patch(m), SemverCompatibility::Patch(n)) => m < n,
        (SemverCompatibility::Patch(_), _) => false,
    }
}

/// Crates that were resolved, by name, class and version.
pub open spec fn root_before(a: Pinned, b: Pinned) -> bool {
    let (m, n) = (a.0.crate_name(), b.0.crate_name());
    let (c, d) = (a.0->Bucket_1, b.0->Bucket_1);
    text_before(m, n) || (m == n && (class_before(c, d) || (c == d && version_before(a.1, b.1))))
}

/// Of the crates that were resolved `p` is the first.
pub open spec fn is_least_root(recorded: Set<Pinned>, p: Pinned) -> bool {
    &&& recorded.contains(p)
    &&& p.0.is_root()
    &&& forall|q: Pinned| #[trigger]
        recorded.contains(q) && q.0.is_root() ==> !root_before(q, p)
}

spec fn pinned(asked: (Names, Version)) -> Pinned {
    (asked.0@, asked.1@)
}

/// Whether the class comes before the other.
fn class_precedes(a: SemverCompatibility, b: SemverCompatibility) -> (r: bool)
    ensures
        r == class_before(a, b),
{
    match (a, b) {
        (SemverCompatibility::Major(m), SemverCompatibility::Major(n)) => m < n,
        (SemverCompatibility::Major(_), _) => true,
        (SemverCompatibility::Minor(_), SemverCompatibility::Major(_)) => false,
        (SemverCompatibility::Minor(m), SemverCompatibility::Minor(n)) => m < n,
        (SemverCompatibility::Minor(_), _) => true,
        (SemverCompatibility::Patch(m), SemverCompatibility::Patch(n)) => m < n,
        (SemverCompatibility::Patch(_), _) => false,
    }
}

/// Whether the first crate comes before the second; exactly one of two different ones does,
/// and what follows the second also follows the first.
fn root_precedes(a: &(Names, Version), b: &(Names, Version)) -> (r: bool)
    requires
        a.0@.is_root(),
        b.0@.is_root(),
    ensures
        r == root_before(pinned(*a), pinned(*b)),
        r ==> pinned(*a) != pinned(*b) && !root_before(pinned(*b), pinned(*a)),
        !r && pinned(*a) != pinned(*b) ==> root_before(pinned(*b), pinned(*a)),
        r ==> forall|c: Pinned| #[trigger]
            root_before(pinned(*b), c) && c.0.is_root() && c.1.valid() ==> root_before(pinned(*a), c)
                && !root_before(c, pinned(*a)),
{
    let (m, n): (String, String) = (a.0.crate_(), b.0.crate_());
    proof {
        text_order_is_strict(m@, n@);
        text_order_is_strict(n@, m@);
        text_order_is_strict(m@, m@);
        if !text_before(m@, n@) && !text_before(n@, m@) {
            text_order_is_total(m@, n@);
        }
    }
    let r: bool = match (&a.0, &b.0) {
        (Names::Bucket(_, c, _), Names::Bucket(_, d, _)) => {
            if is_before(m.as_str(), n.as_str()) {
                true
            } else if m != n {
                false
            } else if *c != *d {
                class_precedes(*c, *d)
            } else {
                a.1.precedes(&b.1)
            }
        },
        _ => false,
    };
    proof {
        if r {
            let (x, y) = (pinned(*a), pinned(*b));
            assert forall|c: Pinned| #[trigger]
                root_before(y, c) && c.0.is_root() && c.1.valid() implies root_before(x, c)
                && !root_before(c, x) by {
                let name = c.0.crate_name();
                if text_before(m@, n@) && text_before(n@, name) {
                    text_order_is_transitive(m@, n@, name);
                }
                text_order_is_strict(m@, name);
                text_order_is_strict(name, m@);
            }
        }
    }
    r
}

/// The versions of crates that were asked for, under their own name or for a feature.
pub open spec fn crates_asked(recorded: Set<Pinned>, name: Seq<char>, v: VersionView) -> bool {
    exists|p: Pinned| #[trigger]
        recorded.contains(p) && (p.0 is Bucket || p.0 is BucketFeatures) && p.0.crate_name() == name
            && p.1 == v
}

/// By name, and then by version.
pub open spec fn data_before(a: VersionData, b: VersionData) -> bool {
    text_before(a.name@, b.name@) || (a.name@ == b.name@ && version_before(a.vers@, b.vers@))
}

/// The part of the index from which a resolution can be run again.
#[derive(Debug)]
pub struct IndexFile<'c> {
    pub name: String,
    pub versions: Vec<&'c VersionData>,
}

/// The questions of a resolution with their answers, from which it can be run again
/// without the index.
#[derive(Debug)]
pub struct PubgrubFile {
    pub name: String,
    pub entries: Vec<(Names, Version, DependencyConstraints)>,
}

/// The list is in order, each version of a crate once.
spec fn in_order(list: Seq<&VersionData>) -> bool {
    &&& forall|i: int| 0 <= i < list.len() ==> (#[trigger] list[i]).vers@.valid()
    &&& forall|i: int, j: int|
        #![trigger list[i], list[j]]
        0 <= i < j < list.len() ==> data_before(*list[i], *list[j])
}

/// Puts `data` at its place in the list, unless its version of its crate is there already.
fn insert_in_order<'c>(list: &mut Vec<&'c VersionData>, data: &'c VersionData)
    requires
        in_order(old(list)@),
    ensures
        in_order(final(list)@),
        forall|i: int| #![trigger final(list)@[i]]
            0 <= i < final(list)@.len() ==> final(list)@[i] == data || old(list)@.contains(
                final(list)@[i],
            ),
        forall|i: int|
            0 <= i < old(list)@.len() ==> final(list)@.contains(#[trigger] old(list)@[i]),
        exists|i: int|
            0 <= i < final(list)@.len() && (#[trigger] final(list)@[i]).name@ == data.name@
                && final(list)@[i].vers@ == data.vers@,
{
    let ghost before = list@;
    let mut k: usize = 0;
    while k < list.len() && (is_before(list[k].name.as_str(), data.name.as_str()) || (list[k].name
        == data.name && list[k].vers.precedes(&data.vers)))
        invariant
            list@ == before,
            k <= list.len(),
            forall|i: int| 0 <= i < k ==> data_before(*(#[trigger] before[i]), *data),
        decreases list.len() - k,
    {
        k += 1;
    }
    if k < list.len() && list[k].name == data.name && list[k].vers.same(&data.vers) {
        return;
    }
    proof {
        use_type_invariant(&data.vers);
    }
    if k < list.len() {
        // The comparison tells that what follows the version there follows this one too.
        let _comes_first: bool = list[k].name == data.name && data.vers.precedes(&list[k].vers);
        proof {
            let at = *before[k as int];
            if at.name@ != data.name@ {
                if !text_before(data.name@, at.name@) {
                    text_order_is_total(data.name@, at.name@);
                }
            }
            assert(data_before(*data, at));
            assert forall|i: int| k <= i < before.len() implies data_before(
                *data,
                *(#[trigger] before[i]),
            ) by {
                if i > k {
                    let b = *before[i];
                    assert(data_before(at, b));
                    if text_before(data.name@, at.name@) && text_before(at.name@, b.name@) {
                        text_order_is_transitive(data.name@, at.name@, b.name@);
                    }
                }
            }
        }
    }
    list.insert(k, data);
    proof {
        let after = list@;
        assert forall|i: int| 0 <= i < after.len() implies #[trigger] after[i] == (if i < k {
            before[i]
        } else if i == k {
            data
        } else {
            before[i - 1]
        }) by {}
        assert forall|i: int, j: int|
            #![trigger after[i], after[j]]
            0 <= i < j < after.len() implies data_before(*after[i], *after[j]) by {
            if i < k && j > k {
                assert(before[i] == after[i] && before[j - 1] == after[j]);
            } else if i > k {
                assert(before[i - 1] == after[i] && before[j - 1] == after[j]);
            } else if i == k {
                assert(before[j - 1] == after[j]);
            } else {
                assert(before[i] == after[i]);
            }
        }
        assert forall|i: int| 0 <= i < before.len() implies after.contains(
            #[trigger] before[i],
        ) by {
            if i < k {
                assert(after[i] == before[i]);
            } else {
                assert(after[i + 1] == before[i]);
            }
        }
        assert(after[k as int] == data);
    }
}

impl<'c> Index<'c> {
    /// The first of the crates that were resolved.
    fn find_root(&self) -> (r: (String, Version))
        requires
            has_root(self.recorded()),
        ensures
            exists|p: Pinned| #[trigger]
                is_least_root(self.recorded(), p) && p.0.crate_name() == r.0@ && p.1 == r.1@,
    {
        let list = self.recorded_list();
        let mut i: usize = 0;
        proof {
            let p = choose|p: Pinned| #[trigger] self.recorded().contains(p) && p.0.is_root();
            let j = choose|j: int|
                0 <= j < list@.len() && (#[trigger] list@[j]).0@ == p.0 && list@[j].1@ == p.1;
            assert(list@[j].0@.is_root());
        }
        while !list[i].0.is_root()
            invariant
                exists|j: int| i <= j < list@.len() && (#[trigger] list@[j]).0@.is_root(),
                forall|j: int| 0 <= j < i ==> !(#[trigger] list@[j]).0@.is_root(),
            decreases list.len() - i,
        {
            i += 1;
        }
        assert(i < list.len());
        let mut best: usize = i;
        i += 1;
        while i < list.len()
            invariant
                best < i <= list.len(),
                list@[best as int].0@.is_root(),
                forall|j: int, k: int|
                    #![trigger list@[j], list@[k]]
                    0 <= j < k < list@.len() ==> !(list@[j].0@ == list@[k].0@ && list@[j].1@
                        == list@[k].1@),
                forall|j: int|
                    0 <= j < i && j != best && (#[trigger] list@[j]).0@.is_root()
                        ==> list@[j].1@.valid() && root_before(
                        pinned(list@[best as int]),
                        pinned(list@[j]),
                    ) && !root_before(pinned(list@[j]), pinned(list@[best as int])),
            decreases list.len() - i,
        {
            if list[i].0.is_root() {
                let (next, first): (&(Names, Version), &(Names, Version)) = (&list[i], &list[best]);
                let before: bool = root_precedes(next, first);
                proof {
                    use_type_invariant(&next.1);
                    use_type_invariant(&first.1);
                    assert(!(list@[best as int].0@ == list@[i as int].0@ && list@[best as int].1@
                        == list@[i as int].1@));
                    if before {
                        assert forall|j: int|
                            0 <= j < i + 1 && j != i && (
                            #[trigger] list@[j]).0@.is_root() implies list@[j].1@.valid()
                            && root_before(pinned(list@[i as int]), pinned(list@[j]))
                            && !root_before(pinned(list@[j]), pinned(list@[i as int])) by {
                            if j != best {
                                assert(root_before(pinned(list@[best as int]), pinned(list@[j])));
                            }
                        }
                    }
                }
                if before {
                    best = i;
                }
            }
            i += 1;
        }
        // The comparison tells that nothing comes before itself.
        let _itself: bool = root_precedes(&list[best], &list[best]);
        proof {
            let p = pinned(list@[best as int]);
            assert(self.recorded().contains(p));
            assert forall|q: Pinned| #[trigger]
                self.recorded().contains(q) && q.0.is_root() implies !root_before(q, p) by {
                let j = choose|j: int|
                    0 <= j < list@.len() && (#[trigger] list@[j]).0@ == q.0 && list@[j].1@ == q.1;
                assert(pinned(list@[j]) == q);
            }
            assert(is_least_root(self.recorded(), p));
        }
        (list[best].0.crate_(), list[best].1.clone())
    }

    /// The name of a file about the first of the crates that were resolved, in the directory
    /// `dir`.
    fn name_file(&self, dir: &str) -> (r: String)
        requires
            has_root(self.recorded()),
        ensures
            exists|p: Pinned| #[trigger]
                is_least_root(self.recorded(), p) && r@ == file_name(dir@, p),
    {
        let (name, version) = self.find_root();
        let mut r: String = dir.to_string();
        r.append(name.as_str());
        r.append("@");
        r.append(version.text().as_str());
        r.append(".ron");
        proof {
            reveal_strlit("@");
            assert("@"@ =~= seq!['@']);
            let p = choose|p: Pinned| #[trigger]
                is_least_root(self.recorded(), p) && p.0.crate_name() == name@ && p.1 == version@;
            assert(r@ == file_name(dir@, p));
        }
        r
    }

    /// The file with the part of the index that was asked for: what it holds of each
    /// version of a crate, by name and version, each once. It bears the name of the first
    /// of the crates that were resolved.
    pub fn make_index_ron_file(&self) -> (r: IndexFile<'c>)
        requires
            has_root(self.recorded()),
        ensures
            exists|p: Pinned| #[trigger]
                is_least_root(self.recorded(), p) && r.name@ == file_name("out/index_ron/"@, p),
            forall|i: int|
                0 <= i < r.versions@.len() ==> {
                    let d = *#[trigger] r.versions@[i];
                    &&& crates_asked(self.recorded(), d.name@, d.vers@)
                    &&& self.crates().lookup(d.name@, d.vers@) == Some(d)
                },
            forall|name: Seq<char>, v: VersionView| #[trigger]
                crates_asked(self.recorded(), name, v) ==> exists|i: int|
                    0 <= i < r.versions@.len() && (#[trigger] r.versions@[i]).name@ == name
                        && r.versions@[i].vers@ == v,
            forall|i: int, j: int|
                #![trigger r.versions@[i], r.versions@[j]]
                0 <= i < j < r.versions@.len() ==> data_before(*r.versions@[i], *r.versions@[j]),
    {
        let name = self.name_file("out/index_ron/");
        let asked = self.recorded_list();
        let ghost recorded = self.recorded();
        let ghost crates = self.crates();
        let mut versions: Vec<&'c VersionData> = Vec::new();
        let mut i: usize = 0;
        while i < asked.len()
            invariant
                i <= asked.len(),
                recorded == self.recorded(),
                crates == self.crates(),
                in_order(versions@),
                forall|j: int|
                    0 <= j < asked@.len() ==> recorded.contains(
                        ((#[trigger] asked@[j]).0@, asked@[j].1@),
                    ),
                forall|j: int|
                    0 <= j < versions@.len() ==> {
                        let d = *#[trigger] versions@[j];
                        &&& crates_asked(recorded, d.name@, d.vers@)
                        &&& crates.lookup(d.name@, d.vers@) == Some(d)
                    },
                forall|j: int|
                    0 <= j < i && ((#[trigger] asked@[j]).0@ is Bucket || asked@[j].0@
                        is BucketFeatures) ==> exists|k: int|
                        0 <= k < versions@.len() && (#[trigger] versions@[k]).name@
                            == asked@[j].0@.crate_name() && versions@[k].vers@ == asked@[j].1@,
            decreases asked.len() - i,
        {
            let of_crate: bool = match &asked[i].0 {
                Names::Bucket(_, _, _) => true,
                Names::BucketFeatures(_, _, _) => true,
                _ => false,
            };
            if of_crate {
                let ghost p = (asked@[i as int].0@, asked@[i as int].1@);
                proof {
                    use_type_invariant(self);
                    self.recorded_is_answerable(p);
                }
                let crate_name = asked[i].0.crate_();
                let data = self.get_version(&crate_name, &asked[i].1).unwrap();
                let ghost before = versions@;
                proof {
                    assert(crates_asked(recorded, data.name@, data.vers@));
                }
                insert_in_order(&mut versions, data);
                proof {
                    assert forall|j: int| 0 <= j < versions@.len() implies ({
                        let d = *#[trigger] versions@[j];
                        &&& crates_asked(recorded, d.name@, d.vers@)
                        &&& crates.lookup(d.name@, d.vers@) == Some(d)
                    }) by {
                        if versions@[j] != data {
                            assert(before.contains(versions@[j]));
                        }
                    }
                    assert forall|j: int|
                        0 <= j < i && ((#[trigger] asked@[j]).0@ is Bucket || asked@[j].0@
                            is BucketFeatures) implies exists|k: int|
                        0 <= k < versions@.len() && (#[trigger] versions@[k]).name@
                            == asked@[j].0@.crate_name() && versions@[k].vers@ == asked@[j].1@ by {
                        let k = choose|k: int|
                            0 <= k < before.len() && (#[trigger] before[k]).name@
                                == asked@[j].0@.crate_name() && before[k].vers@ == asked@[j].1@;
                        assert(versions@.contains(before[k]));
                        let t = choose|t: int| 0 <= t < versions@.len() && versions@[t] == before[k];
                        assert(versions@[t].name@ == asked@[j].0@.crate_name());
                    }
                }
            }
            i += 1;
        }
        proof {
            assert forall|n: Seq<char>, v: VersionView| #[trigger]
                crates_asked(recorded, n, v) implies exists|k: int|
                0 <= k < versions@.len() && (#[trigger] versions@[k]).name@ == n
                    && versions@[k].vers@ == v by {
                let p = choose|p: Pinned| #[trigger]
                    recorded.contains(p) && (p.0 is Bucket || p.0 is BucketFeatures)
                        && p.0.crate_name() == n && p.1 == v;
                let j = choose|j: int|
                    0 <= j < asked@.len() && (#[trigger] asked@[j]).0@ == p.0 && asked@[j].1@
                        == p.1;
                assert(asked@[j].0@.crate_name() == n);
            }
        }
        IndexFile { name, versions }
    }

    /// The file with the questions that were asked and the demands that were the answer;
    /// packages that cannot be used are left out. It bears the name of a crate that was
    /// resolved.
    pub fn make_pubgrub_ron_file(&mut self) -> (r: PubgrubFile)
        requires
            has_root(old(self).recorded()),
        ensures
            final(self).crates() == old(self).crates(),
            final(self).recorded() == old(self).recorded(),
            final(self).calls() == old(self).calls(),
            exists|p: Pinned| #[trigger]
                old(self).recorded().contains(p) && p.0.is_root() && r.name@ == file_name(
                    "out/pubgrub_ron/"@,
                    p,
                ),
            forall|i: int|
                0 <= i < r.entries@.len() ==> {
                    let e = #[trigger] r.entries@[i];
                    &&& old(self).recorded().contains((e.0@, e.1@))
                    &&& dependencies_of(old(self).crates(), e.0@, e.1@)
                        == DependenciesView::Available(e.2@)
                },
            forall|p: Pinned| #[trigger]
                old(self).recorded().contains(p) && dependencies_of(old(self).crates(), p.0, p.1)
                    is Available ==> exists|i: int|
                    0 <= i < r.entries@.len() && (#[trigger] r.entries@[i]).0@ == p.0
                        && r.entries@[i].1@ == p.1,
            forall|i: int, j: int|
                #![trigger r.entries@[i], r.entries@[j]]
                0 <= i < j < r.entries@.len() ==> !(r.entries@[i].0@ == r.entries@[j].0@
                    && r.entries@[i].1@ == r.entries@[j].1@),
    {
        let name = self.name_file("out/pubgrub_ron/");
        proof {
            let p = choose|p: Pinned| #[trigger]
                is_least_root(self.recorded(), p) && name@ == file_name("out/pubgrub_ron/"@, p);
            assert(self.recorded().contains(p));
        }
        let asked: Vec<(Names, Version)> = self.copy_recorded();
        let ghost recorded = self.recorded();
        let ghost crates = self.crates();
        let mut entries: Vec<(Names, Version, DependencyConstraints)> = Vec::new();
        let mut i: usize = 0;
        let ghost mut from: Seq<int> = Seq::empty();
        while i < asked.len()
            invariant
                i <= asked.len(),
                recorded == old(self).recorded(),
                crates == old(self).crates(),
                self.recorded() == recorded,
                self.crates() == crates,
                self.calls() == old(self).calls(),
                forall|j: int|
                    0 <= j < asked@.len() ==> recorded.contains(
                        ((#[trigger] asked@[j]).0@, asked@[j].1@),
                    ),
                forall|j: int, k: int|
                    #![trigger asked@[j], asked@[k]]
                    0 <= j < k < asked@.len() ==> !(asked@[j].0@ == asked@[k].0@ && asked@[j].1@
                        == asked@[k].1@),
                forall|j: int|
                    0 <= j < entries@.len() ==> {
                        let e = #[trigger] entries@[j];
                        &&& recorded.contains((e.0@, e.1@))
                        &&& dependencies_of(crates, e.0@, e.1@) == DependenciesView::Available(
                            e.2@,
                        )
                    },
                from.len() == entries@.len(),
                forall|t: int|
                    0 <= t < from.len() ==> 0 <= (#[trigger] from[t]) < i && asked@[from[t]].0@
                        == entries@[t].0@ && asked@[from[t]].1@ == entries@[t].1@,
                forall|t: int, u: int|
                    #![trigger from[t], from[u]]
                    0 <= t < u < from.len() ==> from[t] < from[u],
                forall|j: int|
                    0 <= j < i && dependencies_of(
                        crates,
                        (#[trigger] asked@[j]).0@,
                        asked@[j].1@,
                    ) is Available ==> exists|t: int|
                        0 <= t < entries@.len() && (#[trigger] entries@[t]).0@ == asked@[j].0@
                            && entries@[t].1@ == asked@[j].1@,
            decreases asked.len() - i,
        {
            let package = asked[i].0.clone();
            let version = asked[i].1.clone();
            let ghost p = (package@, version@);
            proof {
                use_type_invariant(&*self);
                self.recorded_is_answerable(p);
            }
            let answer = self.get_dependencies(&package, &version);
            proof {
                assert(recorded.insert(p) =~= recorded);
            }
            if let Ok(Dependencies::Available(deps)) = answer {
                let ghost before = entries@;
                entries.push((package, version, deps));
                proof {
                    from = from.push(i as int);
                    assert(entries@[before.len() as int].0@ == asked@[i as int].0@);
                    assert forall|j: int|
                        0 <= j < i && dependencies_of(
                            crates,
                            (#[trigger] asked@[j]).0@,
                            asked@[j].1@,
                        ) is Available implies exists|t: int|
                        0 <= t < entries@.len() && (#[trigger] entries@[t]).0@ == asked@[j].0@
                            && entries@[t].1@ == asked@[j].1@ by {
                        let t = choose|t: int|
                            0 <= t < before.len() && (#[trigger] before[t]).0@ == asked@[j].0@
                                && before[t].1@ == asked@[j].1@;
                        assert(entries@[t] == before[t]);
                    }
                }
            }
            i += 1;
        }
        proof {
            assert forall|p: Pinned| #[trigger]
                recorded.contains(p) && dependencies_of(crates, p.0, p.1) is Available implies exists|
                t: int,
            |
                0 <= t < entries@.len() && (#[trigger] entries@[t]).0@ == p.0 && entries@[t].1@
                    == p.1 by {
                let j = choose|j: int|
                    0 <= j < asked@.len() && (#[trigger] asked@[j]).0@ == p.0 && asked@[j].1@
                        == p.1;
                assert(asked@[j].0@ == p.0);
            }
            assert forall|t: int, u: int|
                #![trigger entries@[t], entries@[u]]
                0 <= t < u < entries@.len() implies !(entries@[t].0@ == entries@[u].0@
                && entries@[t].1@ == entries@[u].1@) by {
                assert(from[t] < from[u]);
                assert(asked@[from[t]].0@ == entries@[t].0@);
                assert(asked@[from[u]].0@ == entries@[u].0@);
            }
        }
        PubgrubFile { name, entries }
    }

    /// What was asked, as a list of its own, each question once.
    fn copy_recorded(&self) -> (r: Vec<(Names, Version)>)
        ensures
            forall|i: int, j: int|
                #![trigger r@[i], r@[j]]
                0 <= i < j < r@.len() ==> !(r@[i].0@ == r@[j].0@ && r@[i].1@ == r@[j].1@),
            forall|i: int|
                0 <= i < r@.len() ==> self.recorded().contains(
                    ((#[trigger] r@[i]).0@, r@[i].1@),
                ),
            forall|p: Pinned| #[trigger]
                self.recorded().contains(p) ==> exists|i: int|
                    0 <= i < r@.len() && (#[trigger] r@[i]).0@ == p.0 && r@[i].1@ == p.1,
    {
        let list = self.recorded_list();
        let mut r: Vec<(Names, Version)> = Vec::new();
        let mut i: usize = 0;
        while i < list.len()
            invariant
                i <= list.len(),
                r@ == list@.take(i as int),
            decreases list.len() - i,
        {
            r.push((list[i].0.clone(), list[i].1.clone()));
            i += 1;
        }
        assert(list@.take(i as int) =~= list@);
        r
    }
}

/// Whether a crate takes part is told by its name alone: it does if and only if `solana`
/// is no part of it.
pub proof fn one_family_is_left_out(name: Seq<char>)
    ensures
        occurs(name, "solana"@) <==> exists|a: Seq<char>, b: Seq<char>|
            name == #[trigger] (a + "solana"@ + b),
{
    crate::text::what_occurs_is_a_part(name, "solana"@);
}

/// What is counted and listed: the selected crates; the versions of crates that were asked
/// for, as a crate or for a feature; and whether one was asked for as the crate to be
/// resolved.
pub proof fn what_is_reported(
    sel: Map<NamesView, VersionView>,
    recorded: Set<Pinned>,
    n: NamesView,
    name: Seq<char>,
    v: VersionView,
)
    ensures
        real_packages(sel).contains(n) <==> sel.contains_key(n) && n is Bucket,
        crates_asked(recorded, name, v) <==> exists|p: Pinned| #[trigger]
            recorded.contains(p) && p.1 == v && match p.0 {
                NamesView::Bucket(m, _, _) => m == name,
                NamesView::BucketFeatures(m, _, _) => m == name,
                _ => false,
            },
        has_root(recorded) <==> exists|p: Pinned| #[trigger]
            recorded.contains(p) && (p.0 matches NamesView::Bucket(_, _, all) && all),
{
    if crates_asked(recorded, name, v) {
        let p = choose|p: Pinned| #[trigger]
            recorded.contains(p) && (p.0 is Bucket || p.0 is BucketFeatures) && p.0.crate_name()
                == name && p.1 == v;
        assert(recorded.contains(p));
    }
    if has_root(recorded) {
        let p = choose|p: Pinned| #[trigger] recorded.contains(p) && p.0.is_root();
        assert(recorded.contains(p));
    }
}

/// The order of what is listed: versions of crates by name, and those of one crate by version.
pub proof fn versions_are_listed_by_name(a: VersionData, b: VersionData)
    ensures
        a.name@ == b.name@ ==> data_before(a, b) == version_before(a.vers@, b.vers@),
        a.name@ != b.name@ ==> data_before(a, b) == text_before(a.name@, b.name@),
{
    text_order_is_strict(a.name@, b.name@);
}

/// The order of the crates that were resolved: by name; those of one name by class, those of
/// a major number before those of a minor and those before those of a patch number, and then
/// by that number; and those of one class by version.
pub proof fn roots_are_ordered_by_name(
    name: Seq<char>,
    other: Seq<char>,
    c: SemverCompatibility,
    d: SemverCompatibility,
    v: VersionView,
    w: VersionView,
)
    ensures
        ({
            let a = (NamesView::Bucket(name, c, true), v);
            let b = (NamesView::Bucket(other, d, true), w);
            &&& name != other ==> root_before(a, b) == text_before(name, other)
            &&& name == other && c != d ==> root_before(a, b) == match (c, d) {
                (SemverCompatibility::Major(m), SemverCompatibility::Major(n)) => m < n,
                (SemverCompatibility::Minor(m), SemverCompatibility::Minor(n)) => m < n,
                (SemverCompatibility::Patch(m), SemverCompatibility::Patch(n)) => m < n,
                _ => c is Major || d is Patch,
            }
            &&& name == other && c == d ==> root_before(a, b) == version_before(v, w)
        }),
{
    text_order_is_strict(name, other);
}

/// The root that names the file of the index is one that was asked for, and of those the first.
pub proof fn the_first_root_is_the_least(recorded: Set<Pinned>, p: Pinned)
    ensures
        is_least_root(recorded, p) <==> recorded.contains(p) && (p.0 matches NamesView::Bucket(
            _,
            _,
            all,
        ) && all) && forall|name: Seq<char>, c: SemverCompatibility, v: VersionView|
            #![trigger recorded.contains((NamesView::Bucket(name, c, true), v))]
            recorded.contains((NamesView::Bucket(name, c, true), v)) ==> !root_before(
                (NamesView::Bucket(name, c, true), v),
                p,
            ),
{
    let inline = recorded.contains(p) && (p.0 matches NamesView::Bucket(_, _, all) && all)
        && forall|name: Seq<char>, c: SemverCompatibility, v: VersionView|
        #![trigger recorded.contains((NamesView::Bucket(name, c, true), v))]
        recorded.contains((NamesView::Bucket(name, c, true), v)) ==> !root_before(
            (NamesView::Bucket(name, c, true), v),
            p,
        );
    if inline {
        assert forall|q: Pinned| #[trigger]
            recorded.contains(q) && q.0.is_root() implies !root_before(q, p) by {
            let (name, c) = (q.0->Bucket_0, q.0->Bucket_1);
            assert(q == (NamesView::Bucket(name, c, true), q.1));
            assert(recorded.contains((NamesView::Bucket(name, c, true), q.1)));
        }
    }
}

/// A file is named by its directory, the crate, `@`, the version and `.ron`.
pub proof fn how_a_file_is_named(
    dir: Seq<char>,
    name: Seq<char>,
    c: SemverCompatibility,
    v: VersionView,
)
    ensures
        file_name(dir, (NamesView::Bucket(name, c, true), v)) == dir + (name + ("@"@ + (v.text()
            + ".ron"@))),
{
    reveal_strlit("@");
    assert("@"@ =~= seq!['@']);
    assert(file_name(dir, (NamesView::Bucket(name, c, true), v)) =~= dir + (name + ("@"@ + (v.text()
        + ".ron"@))));
}

} // verus!
