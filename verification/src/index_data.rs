//! The index of crates: what is known of each version of each crate.

use vstd::hash_map::StringHashMap;
use vstd::prelude::*;
use crate::text::texts;
use crate::version::{version_before, SemverCompatibility, Version, VersionReq, VersionView};

verus! {

/// When a dependency is needed.
#[derive(Debug, Clone, Copy, PartialEq, Eq, Structural)]
pub enum DependencyKind {
    Normal,
    Dev,
    Build,
}

/// A dependency of a version of a crate.
#[derive(Debug)]
pub struct Dependency {
    /// The name under which the crate knows the dependency.
    pub name: String,
    /// The name of the crate that is depended on.
    pub package_name: String,
    /// The versions that will do.
    pub req: VersionReq,
    /// The compatibility class that holds all versions that meet `req`, if there is
    /// only one.
    pub only_compatibility: Option<SemverCompatibility>,
    /// The features that have to be enabled.
    pub features: Vec<String>,
    pub optional: bool,
    pub default_features: bool,
    pub kind: DependencyKind,
}

/// A version of a crate.
#[derive(Debug)]
pub struct VersionData {
    /// The name of the crate.
    pub name: String,
    pub vers: Version,
    pub deps: Vec<Dependency>,
    /// The features, each with what it enables.
    pub features: Vec<(String, Vec<String>)>,
    /// The native library that the crate links.
    pub links: Option<String>,
    pub yanked: bool,
}

/// What the feature `feat` enables; `None` if there is no such feature. Of several
/// entries with one name the first counts.
pub open spec fn feature_values(features: Seq<(String, Vec<String>)>, feat: Seq<char>) -> Option<
    Seq<Seq<char>>,
>
    decreases features.len(),
{
    if features.len() == 0 {
        None
    } else if features[0].0@ == feat {
        Some(texts(features[0].1@))
    } else {
        feature_values(features.skip(1), feat)
    }
}

/// Looks up what a feature enables.
pub fn get_feature<'a>(features: &'a Vec<(String, Vec<String>)>, feat: &String) -> (r: Option<
    &'a Vec<String>,
>)
    ensures
        match r {
            Some(values) => feature_values(features@, feat@) == Some(texts(values@)),
            None => feature_values(features@, feat@) is None,
        },
{
    let mut i: usize = 0;
    proof {
        assert(features@.skip(0) =~= features@);
    }
    while i < features.len()
        invariant
            i <= features.len(),
            feature_values(features@.skip(i as int), feat@) == feature_values(features@, feat@),
        decreases features.len() - i,
    {
        proof {
            assert(features@.skip(i as int).skip(1) =~= features@.skip(i + 1));
        }
        if features[i].0 == *feat {
            return Some(&features[i].1);
        }
        i += 1;
    }
    None
}

/// The entry of the version `v` in a list; the first, if there are several.
pub open spec fn find(list: Seq<VersionData>, v: VersionView) -> Option<VersionData>
    decreases list.len(),
{
    if list.len() == 0 {
        None
    } else if list[0].vers@ == v {
        Some(list[0])
    } else {
        find(list.skip(1), v)
    }
}

/// Where [`find`] finds an entry.
pub proof fn lemma_find(list: Seq<VersionData>, v: VersionView)
    ensures
        match find(list, v) {
            Some(d) => exists|i: int|
                0 <= i < list.len() && #[trigger] list[i] == d && d.vers@ == v && (forall|j: int|
                    0 <= j < i ==> (#[trigger] list[j]).vers@ != v),
            None => forall|i: int| 0 <= i < list.len() ==> (#[trigger] list[i]).vers@ != v,
        },
    decreases list.len(),
{
    if list.len() > 0 && list[0].vers@ != v {
        let rest = list.skip(1);
        lemma_find(rest, v);
        match find(rest, v) {
            Some(d) => {
                let i = choose|i: int|
                    0 <= i < rest.len() && #[trigger] rest[i] == d && (forall|j: int|
                        0 <= j < i ==> (#[trigger] rest[j]).vers@ != v);
                assert(list[i + 1] == d);
                assert forall|j: int| 0 <= j < i + 1 implies (#[trigger] list[j]).vers@ != v by {
                    if j > 0 {
                        assert(rest[j - 1] == list[j]);
                    }
                }
            },
            None => {
                assert forall|i: int| 0 <= i < list.len() implies (#[trigger] list[i]).vers@
                    != v by {
                    if i > 0 {
                        assert(rest[i - 1] == list[i]);
                    }
                }
            },
        }
    }
}

/// The versions of the list come in ascending order, each once.
pub open spec fn ascending(list: Seq<VersionData>) -> bool {
    &&& forall|i: int| 0 <= i < list.len() ==> (#[trigger] list[i]).vers@.valid()
    &&& forall|i: int, j: int|
        #![trigger list[i], list[j]]
        0 <= i < j < list.len() ==> {
            &&& version_before(list[i].vers@, list[j].vers@)
            &&& !version_before(list[j].vers@, list[i].vers@)
            &&& list[i].vers@ != list[j].vers@
        }
}

/// In a list that holds each version once, an entry is found by its version.
proof fn lemma_find_at(list: Seq<VersionData>, i: int)
    requires
        ascending(list),
        0 <= i < list.len(),
    ensures
        find(list, list[i].vers@) == Some(list[i]),
{
    lemma_find(list, list[i].vers@);
    if let Some(d) = find(list, list[i].vers@) {
        let k = choose|k: int|
            0 <= k < list.len() && #[trigger] list[k] == d && d.vers@ == list[i].vers@;
        if k < i {
            assert(list[k].vers@ != list[i].vers@);
        } else if i < k {
            assert(list[i].vers@ != list[k].vers@);
        }
    }
}

/// Puts `data` at its place in a list; it takes the place of an entry with its
/// version.
fn insert_sorted(list: &mut Vec<VersionData>, data: VersionData)
    requires
        ascending(old(list)@),
    ensures
        ascending(final(list)@),
        forall|v: VersionView| #[trigger]
            find(final(list)@, v) == if v == data.vers@ {
                Some(data)
            } else {
                find(old(list)@, v)
            },
        forall|i: int|
            0 <= i < final(list)@.len() ==> #[trigger] final(list)@[i] == data || old(
                list,
            )@.contains(final(list)@[i]),
{
    let ghost before = list@;
    let ghost x = data.vers@;
    let mut k: usize = 0;
    while k < list.len() && list[k].vers.precedes(&data.vers)
        invariant
            list@ == before,
            ascending(before),
            x == data.vers@,
            k <= list.len(),
            forall|i: int|
                0 <= i < k ==> version_before((#[trigger] before[i]).vers@, x) && !version_before(
                    x,
                    before[i].vers@,
                ) && before[i].vers@ != x,
        decreases list.len() - k,
    {
        k += 1;
    }
    proof {
        use_type_invariant(&data.vers);
    }
    if k < list.len() && list[k].vers.same(&data.vers) {
        list.set(k, data);
        let ghost after = list@;
        proof {
            assert forall|i: int, j: int|
                #![trigger after[i], after[j]]
                0 <= i < j < after.len() implies version_before(after[i].vers@, after[j].vers@)
                && !version_before(after[j].vers@, after[i].vers@) && after[i].vers@
                != after[j].vers@ by {
                assert(after[i].vers@ == before[i].vers@);
                assert(after[j].vers@ == before[j].vers@);
            }
            assert forall|i: int| 0 <= i < after.len() implies (
            #[trigger] after[i]).vers@.valid() by {
                assert(after[i].vers@ == before[i].vers@);
            }
            assert forall|v: VersionView| #[trigger]
                find(after, v) == if v == x {
                    Some(data)
                } else {
                    find(before, v)
                } by {
                if v == x {
                    assert(after[k as int] == data);
                    lemma_find_at(after, k as int);
                } else {
                    lemma_find(before, v);
                    match find(before, v) {
                        Some(d) => {
                            let i = choose|i: int|
                                0 <= i < before.len() && #[trigger] before[i] == d && d.vers@ == v;
                            assert(after[i] == d);
                            lemma_find_at(after, i);
                        },
                        None => {
                            lemma_find(after, v);
                            if let Some(d) = find(after, v) {
                                let i = choose|i: int|
                                    0 <= i < after.len() && #[trigger] after[i] == d && d.vers@
                                        == v;
                                assert(before[i].vers@ == v);
                            }
                        },
                    }
                }
            }
        }
    } else {
        if k < list.len() {
            let follows: bool = data.vers.precedes(&list[k].vers);
            proof {
                assert(follows);
                assert forall|i: int| k <= i < before.len() implies version_before(
                    x,
                    (#[trigger] before[i]).vers@,
                ) && !version_before(before[i].vers@, x) && before[i].vers@ != x by {
                    if i > k {
                        assert(version_before(before[k as int].vers@, before[i].vers@));
                    }
                }
            }
        }
        list.insert(k, data);
        let ghost after = list@;
        proof {
            assert forall|i: int| 0 <= i < after.len() implies #[trigger] after[i] == (if i < k {
                before[i]
            } else if i == k {
                data
            } else {
                before[i - 1]
            }) by {}
            assert forall|i: int, j: int|
                #![trigger after[i], after[j]]
                0 <= i < j < after.len() implies version_before(after[i].vers@, after[j].vers@)
                && !version_before(after[j].vers@, after[i].vers@) && after[i].vers@
                != after[j].vers@ by {
                if i < k && j > k {
                    assert(before[i] == after[i] && before[j - 1] == after[j]);
                } else if i > k {
                    assert(before[i - 1] == after[i] && before[j - 1] == after[j]);
                } else if i == k {
                    assert(before[j - 1] == after[j]);
                } else {
                    assert(before[i] == after[i]);
                }
            }
            assert forall|v: VersionView| #[trigger]
                find(after, v) == if v == x {
                    Some(data)
                } else {
                    find(before, v)
                } by {
                if v == x {
                    assert(after[k as int] == data);
                    lemma_find_at(after, k as int);
                } else {
                    lemma_find(before, v);
                    match find(before, v) {
                        Some(d) => {
                            let i = choose|i: int|
                                0 <= i < before.len() && #[trigger] before[i] == d && d.vers@ == v;
                            let j = if i < k {
                                i
                            } else {
                                i + 1
                            };
                            assert(after[j] == d);
                            lemma_find_at(after, j);
                        },
                        None => {
                            lemma_find(after, v);
                            if let Some(d) = find(after, v) {
                                let i = choose|i: int|
                                    0 <= i < after.len() && #[trigger] after[i] == d && d.vers@
                                        == v;
                                let j = if i < k {
                                    i
                                } else {
                                    i - 1
                                };
                                assert(before[j].vers@ == v);
                            }
                        },
                    }
                }
            }
        }
    }
}

/// A crate of the index.
struct CrateEntry {
    name: String,
    versions: Vec<VersionData>,
}

/// The index: the crates by name, and the versions of each in ascending order.
pub struct Crates {
    entries: Vec<CrateEntry>,
    places: StringHashMap<usize>,
}

/// `places` says where in the list each crate stands.
spec fn placed(entries: Seq<CrateEntry>, places: Map<Seq<char>, usize>) -> bool {
    &&& forall|name: Seq<char>| #[trigger]
        places.contains_key(name) ==> places[name] < entries.len()
            && entries[places[name] as int].name@ == name
    &&& forall|i: int|
        0 <= i < entries.len() ==> places.contains_key((#[trigger] entries[i]).name@)
            && places[entries[i].name@] == i
}

/// All entries of the list are versions of the crate `name`.
spec fn all_named(list: Seq<VersionData>, name: Seq<char>) -> bool {
    forall|i: int| 0 <= i < list.len() ==> (#[trigger] list[i]).name@ == name
}

impl Crates {
    /// The versions of the crate `name`, in ascending order; none if there is no such
    /// crate.
    pub closed spec fn versions(self, name: Seq<char>) -> Seq<VersionData> {
        if self.places@.contains_key(name) {
            self.entries@[self.places@[name] as int].versions@
        } else {
            Seq::empty()
        }
    }

    /// What the index holds of a version of a crate.
    pub open spec fn lookup(self, name: Seq<char>, v: VersionView) -> Option<VersionData> {
        find(self.versions(name), v)
    }

    /// Each crate occurs once, with its versions in ascending order, each once.
    #[verifier::type_invariant]
    pub closed spec fn wf(self) -> bool {
        &&& placed(self.entries@, self.places@)
        &&& forall|i: int|
            0 <= i < self.entries@.len() ==> ascending((#[trigger] self.entries@[i]).versions@)
                && all_named(self.entries@[i].versions@, self.entries@[i].name@)
    }

    /// What is looked up is what was asked for.
    pub proof fn lookup_is_named(self, name: Seq<char>, v: VersionView)
        requires
            self.wf(),
        ensures
            self.lookup(name, v) matches Some(data) ==> data.name@ == name && data.vers@ == v
                && v.valid(),
    {
        lemma_find(self.versions(name), v);
        if self.places@.contains_key(name) {
            let entry = self.entries@[self.places@[name] as int];
            assert(all_named(entry.versions@, name));
            assert(ascending(entry.versions@));
        }
    }

    /// The versions of each crate come in ascending order, each once.
    pub proof fn versions_ascend(self, name: Seq<char>)
        requires
            self.wf(),
        ensures
            ascending(self.versions(name)),
    {
        if self.places@.contains_key(name) {
            assert(ascending(self.entries@[self.places@[name] as int].versions@));
        }
    }

    /// The index without any crate.
    pub fn new() -> (r: Crates)
        ensures
            forall|name: Seq<char>| #[trigger] r.versions(name) == Seq::<VersionData>::empty(),
    {
        Crates { entries: Vec::new(), places: StringHashMap::new() }
    }

    /// Enters a version of a crate; what was known of that version before is
    /// replaced, and nothing else changes.
    pub fn insert(&mut self, data: VersionData)
        ensures
            forall|name: Seq<char>|
                name != data.name@ ==> #[trigger] final(self).versions(name) == old(self).versions(
                    name,
                ),
            forall|v: VersionView| #[trigger]
                final(self).lookup(data.name@, v) == if v == data.vers@ {
                    Some(data)
                } else {
                    old(self).lookup(data.name@, v)
                },
    {
        proof {
            use_type_invariant(&*self);
        }
        let mut held = Crates::new();
        std::mem::swap(&mut held, self);
        let Crates { mut entries, mut places } = held;
        let ghost before = entries@;
        let i: usize = match places.get(data.name.as_str()) {
            Some(i) => {
                let i: usize = *i;
                insert_sorted(&mut entries[i].versions, data);
                i
            },
            None => {
                let i: usize = entries.len();
                let name: String = data.name.clone();
                places.insert(data.name.clone(), i);
                let mut versions: Vec<VersionData> = Vec::new();
                insert_sorted(&mut versions, data);
                entries.push(CrateEntry { name, versions });
                i
            },
        };
        proof {
            let after = entries@;
            assert forall|j: int| 0 <= j < after.len() implies ascending(
                (#[trigger] after[j]).versions@,
            ) && all_named(after[j].versions@, after[j].name@) by {
                if j != i {
                    assert(after[j] == before[j]);
                }
            }
            assert forall|j: int| 0 <= j < after.len() implies places@.contains_key(
                (#[trigger] after[j]).name@,
            ) && places@[after[j].name@] == j by {
                if j < before.len() {
                    assert(after[j].name@ == before[j].name@);
                }
            }
            assert forall|name: Seq<char>| #[trigger] places@.contains_key(name) implies places@[name]
                < after.len() && after[places@[name] as int].name@ == name by {
                if name != after[i as int].name@ {
                    assert(old(self).places@.contains_key(name));
                    assert(after[places@[name] as int] == before[places@[name] as int]);
                }
            }
        }
        *self = Crates { entries, places };
    }

    /// The versions of the crate `name`; `None` if there is no such crate.
    pub fn get(&self, name: &String) -> (r: Option<&Vec<VersionData>>)
        ensures
            match r {
                Some(list) => list@ == self.versions(name@),
                None => self.versions(name@).len() == 0,
            },
    {
        proof {
            use_type_invariant(self);
        }
        match self.places.get(name.as_str()) {
            Some(i) => Some(&self.entries[*i].versions),
            None => None,
        }
    }

    /// What the index holds of a version of a crate.
    pub fn get_version(&self, name: &String, version: &Version) -> (r: Option<&VersionData>)
        ensures
            match r {
                Some(data) => self.lookup(name@, version@) == Some(*data),
                None => self.lookup(name@, version@) is None,
            },
    {
        match self.get(name) {
            None => None,
            Some(list) => {
                let mut i: usize = 0;
                proof {
                    assert(list@.skip(0) =~= list@);
                }
                while i < list.len()
                    invariant
                        i <= list.len(),
                        find(list@.skip(i as int), version@) == find(list@, version@),
                        list@ == self.versions(name@),
                    decreases list.len() - i,
                {
                    proof {
                        assert(list@.skip(i as int).skip(1) =~= list@.skip(i + 1));
                    }
                    if list[i].vers.same(version) {
                        return Some(&list[i]);
                    }
                    i += 1;
                }
                None
            },
        }
    }
}

/// What a feature enables is what the first entry of its name lists; a feature without an
/// entry enables nothing that is listed.
pub proof fn a_feature_enables_what_is_listed(features: Seq<(String, Vec<String>)>, feat: Seq<char>)
    ensures
        match feature_values(features, feat) {
            Some(vals) => exists|i: int|
                0 <= i < features.len() && (#[trigger] features[i]).0@ == feat && vals.len()
                    == features[i].1@.len() && (forall|j: int|
                    0 <= j < vals.len() ==> #[trigger] vals[j] == features[i].1@[j]@) && (forall|
                    k: int,
                | 0 <= k < i ==> (#[trigger] features[k]).0@ != feat),
            None => forall|i: int| 0 <= i < features.len() ==> (#[trigger] features[i]).0@ != feat,
        },
    decreases features.len(),
{
    if features.len() > 0 {
        if features[0].0@ == feat {
            let vals = texts(features[0].1@);
            assert(forall|j: int| 0 <= j < vals.len() ==> #[trigger] vals[j] == features[0].1@[j]@);
        } else {
            let rest = features.skip(1);
            a_feature_enables_what_is_listed(rest, feat);
            match feature_values(rest, feat) {
                Some(vals) => {
                    let i = choose|i: int|
                        0 <= i < rest.len() && (#[trigger] rest[i]).0@ == feat && vals.len()
                            == rest[i].1@.len() && (forall|j: int|
                            0 <= j < vals.len() ==> #[trigger] vals[j] == rest[i].1@[j]@) && (
                        forall|k: int| 0 <= k < i ==> (#[trigger] rest[k]).0@ != feat);
                    assert(features[i + 1] == rest[i]);
                    assert forall|k: int| 0 <= k < i + 1 implies (#[trigger] features[k]).0@
                        != feat by {
                        if k > 0 {
                            assert(rest[k - 1] == features[k]);
                        }
                    }
                },
                None => {
                    assert forall|i: int| 0 <= i < features.len() implies (
                    #[trigger] features[i]).0@ != feat by {
                        if i > 0 {
                            assert(rest[i - 1] == features[i]);
                        }
                    }
                },
            }
        }
    }
}

/// What the index holds of a version is its entry among the versions of the crate, which come
/// in ascending order, each once.
pub proof fn what_the_index_holds(crates: Crates, name: Seq<char>, v: VersionView)
    requires
        crates.wf(),
    ensures
        forall|i: int|
            0 <= i < crates.versions(name).len() ==> crates.lookup(
                name,
                (#[trigger] crates.versions(name)[i]).vers@,
            ) == Some(crates.versions(name)[i]),
        crates.lookup(name, v) is Some <==> exists|i: int|
            0 <= i < crates.versions(name).len() && (#[trigger] crates.versions(name)[i]).vers@
                == v,
        forall|i: int, j: int|
            #![trigger crates.versions(name)[i], crates.versions(name)[j]]
            0 <= i < j < crates.versions(name).len() ==> version_before(
                crates.versions(name)[i].vers@,
                crates.versions(name)[j].vers@,
            ),
        forall|i: int|
            0 <= i < crates.versions(name).len() ==> (#[trigger] crates.versions(name)[i]).name@
                == name,
{
    let list = crates.versions(name);
    crates.versions_ascend(name);
    lemma_find(list, v);
    assert forall|i: int| 0 <= i < list.len() implies crates.lookup(
        name,
        (#[trigger] list[i]).vers@,
    ) == Some(list[i]) && list[i].name@ == name by {
        lemma_find_at(list, i);
        crates.lookup_is_named(name, list[i].vers@);
    }
}

} // verus!
