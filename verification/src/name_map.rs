//! A map from packages to values.

use vstd::prelude::*;
use crate::names::{Names, NamesView};

verus! {

/// A map from packages to values, each package once.
#[derive(Debug)]
pub struct NameMap<T> {
    entries: Vec<(Names, T)>,
}

spec fn entry_at<T>(entries: Seq<(Names, T)>, i: int, n: NamesView) -> bool {
    0 <= i < entries.len() && entries[i].0@ == n
}

spec fn as_map<T>(entries: Seq<(Names, T)>) -> Map<NamesView, T> {
    Map::new(
        |n: NamesView| exists|i: int| entry_at(entries, i, n),
        |n: NamesView| entries[choose|i: int| entry_at(entries, i, n)].1,
    )
}

spec fn keys_differ<T>(entries: Seq<(Names, T)>) -> bool {
    forall|i: int, j: int|
        #![trigger entries[i], entries[j]]
        0 <= i < j < entries.len() ==> entries[i].0@ != entries[j].0@
}

proof fn lemma_as_map<T>(entries: Seq<(Names, T)>)
    requires
        keys_differ(entries),
    ensures
        forall|i: int|
            0 <= i < entries.len() ==> as_map(entries).contains_key((#[trigger] entries[i]).0@)
                && as_map(entries)[entries[i].0@] == entries[i].1,
{
    assert forall|i: int| 0 <= i < entries.len() implies as_map(entries).contains_key(
        (#[trigger] entries[i]).0@,
    ) && as_map(entries)[entries[i].0@] == entries[i].1 by {
        let n = entries[i].0@;
        assert(entry_at(entries, i, n));
        let k = choose|k: int| entry_at(entries, k, n);
        if k < i {
            assert(entries[k].0@ != entries[i].0@);
        } else if i < k {
            assert(entries[i].0@ != entries[k].0@);
        }
    }
}

/// The keys are counted by the entries.
proof fn lemma_len<T>(entries: Seq<(Names, T)>)
    requires
        keys_differ(entries),
    ensures
        as_map(entries).dom().finite(),
        as_map(entries).len() == entries.len(),
{
    let keys = entries.map_values(|e: (Names, T)| e.0@);
    assert forall|i: int, j: int|
        0 <= i < keys.len() && 0 <= j < keys.len() && i != j implies keys[i] != keys[j] by {
        if i < j {
            assert(entries[i].0@ != entries[j].0@);
        } else {
            assert(entries[j].0@ != entries[i].0@);
        }
    }
    assert(keys.no_duplicates());
    keys.unique_seq_to_set();
    assert forall|n: NamesView| #[trigger]
        keys.to_set().contains(n) == as_map(entries).dom().contains(n) by {
        if keys.to_set().contains(n) {
            let i = choose|i: int| 0 <= i < keys.len() && keys[i] == n;
            assert(entry_at(entries, i, n));
        }
        if as_map(entries).dom().contains(n) {
            let i = choose|i: int| entry_at(entries, i, n);
            assert(keys[i] == n);
        }
    }
    assert(keys.to_set() =~= as_map(entries).dom());
}

impl<T> View for NameMap<T> {
    type V = Map<NamesView, T>;

    closed spec fn view(&self) -> Map<NamesView, T> {
        as_map(self.entries@)
    }
}

impl<T> NameMap<T> {
    /// A map holds finitely many packages.
    pub proof fn is_finite(self)
        ensures
            self@.dom().finite(),
    {
        let keys = self.entries@.map_values(|e: (Names, T)| e.0@);
        assert forall|n: NamesView| #[trigger]
            self@.dom().contains(n) implies keys.to_set().contains(n) by {
            let i = choose|i: int| entry_at(self.entries@, i, n);
            assert(keys[i] == n);
        }
        vstd::seq_lib::seq_to_set_is_finite(keys);
        vstd::set_lib::lemma_set_subset_finite(keys.to_set(), self@.dom());
    }

    #[verifier::type_invariant]
    spec fn type_inv(self) -> bool {
        keys_differ(self.entries@)
    }

    /// The map without any package.
    pub fn new() -> (r: NameMap<T>)
        ensures
            r@ == Map::<NamesView, T>::empty(),
    {
        let r = NameMap { entries: Vec::new() };
        assert(r@ =~= Map::<NamesView, T>::empty());
        r
    }

    /// How many packages the map holds.
    pub fn len(&self) -> (r: usize)
        ensures
            self@.dom().finite(),
            r == self@.len(),
    {
        proof {
            use_type_invariant(self);
            lemma_len(self.entries@);
        }
        self.entries.len()
    }

    /// The packages with their values, as a list.
    pub fn entries(&self) -> (r: &Vec<(Names, T)>)
        ensures
            r@.len() == self@.len(),
            self@.dom().finite(),
            forall|i: int|
                0 <= i < r@.len() ==> self@.contains_key((#[trigger] r@[i]).0@)
                    && self@[r@[i].0@] == r@[i].1,
            forall|n: NamesView| #[trigger]
                self@.contains_key(n) ==> exists|i: int|
                    0 <= i < r@.len() && (#[trigger] r@[i]).0@ == n,
            forall|i: int, j: int|
                #![trigger r@[i], r@[j]]
                0 <= i < j < r@.len() ==> r@[i].0@ != r@[j].0@,
    {
        proof {
            use_type_invariant(self);
            lemma_as_map(self.entries@);
            lemma_len(self.entries@);
            assert forall|n: NamesView| #[trigger] self@.contains_key(n) implies exists|i: int|
                0 <= i < self.entries@.len() && (#[trigger] self.entries@[i]).0@ == n by {
                let i = choose|i: int| entry_at(self.entries@, i, n);
                assert(self.entries@[i].0@ == n);
            }
        }
        &self.entries
    }

    /// The value of a package.
    pub fn get(&self, n: &Names) -> (r: Option<&T>)
        ensures
            match r {
                Some(t) => self@.contains_key(n@) && self@[n@] == *t,
                None => !self@.contains_key(n@),
            },
    {
        proof {
            use_type_invariant(self);
            lemma_as_map(self.entries@);
        }
        let mut i: usize = 0;
        while i < self.entries.len()
            invariant
                i <= self.entries.len(),
                forall|j: int| 0 <= j < i ==> (#[trigger] self.entries@[j]).0@ != n@,
                forall|j: int|
                    0 <= j < self.entries@.len() ==> self@.contains_key(
                        (#[trigger] self.entries@[j]).0@,
                    ) && self@[self.entries@[j].0@] == self.entries@[j].1,
            decreases self.entries.len() - i,
        {
            if self.entries[i].0.same(n) {
                return Some(&self.entries[i].1);
            }
            i += 1;
        }
        proof {
            if self@.contains_key(n@) {
                let k = choose|k: int| entry_at(self.entries@, k, n@);
                assert(self.entries@[k].0@ == n@);
            }
        }
        None
    }

    /// Gives a package a value, in place of the one that it had.
    pub fn insert(&mut self, n: Names, t: T)
        ensures
            final(self)@ == old(self)@.insert(n@, t),
    {
        proof {
            use_type_invariant(&*self);
        }
        let mut entries: Vec<(Names, T)> = Vec::new();
        std::mem::swap(&mut entries, &mut self.entries);
        let ghost before = entries@;
        let mut i: usize = 0;
        while i < entries.len() && !entries[i].0.same(&n)
            invariant
                entries@ == before,
                i <= before.len(),
                forall|j: int| 0 <= j < i ==> (#[trigger] before[j]).0@ != n@,
            decreases entries.len() - i,
        {
            i += 1;
        }
        let ghost want = as_map(before).insert(n@, t);
        let ghost nv = n@;
        proof {
            lemma_as_map(before);
        }
        if i < entries.len() {
            entries.set(i, (n, t));
        } else {
            entries.push((n, t));
        }
        let ghost after = entries@;
        proof {
            assert forall|j: int| 0 <= j < after.len() && j != i implies #[trigger] after[j]
                == before[j] by {}
            assert(after[i as int].0@ == nv);
            assert forall|j: int, k: int|
                #![trigger after[j], after[k]]
                0 <= j < k < after.len() implies after[j].0@ != after[k].0@ by {
                if k < before.len() {
                    assert(after[j].0@ == before[j].0@ && after[k].0@ == before[k].0@);
                } else {
                    assert(after[j].0@ == before[j].0@);
                }
            }
            lemma_as_map(after);
            assert forall|m: NamesView| #[trigger]
                as_map(after).contains_key(m) == want.contains_key(m) by {
                if as_map(after).contains_key(m) && m != nv {
                    let k = choose|k: int| entry_at(after, k, m);
                    assert(entry_at(before, k, m));
                }
                if as_map(before).contains_key(m) {
                    let k = choose|k: int| entry_at(before, k, m);
                    assert(entry_at(after, k, m));
                }
                assert(entry_at(after, i as int, nv));
            }
            assert forall|m: NamesView| #[trigger] as_map(after).contains_key(m) implies as_map(
                after,
            )[m] == want[m] by {
                let k = choose|k: int| entry_at(after, k, m);
                assert(after[k].0@ == m);
                if k != i {
                    assert(before[k].0@ == m);
                    if k < i {
                        assert(after[k].0@ != after[i as int].0@);
                    } else {
                        assert(after[i as int].0@ != after[k].0@);
                    }
                }
            }
            assert(as_map(after) =~= want);
        }
        self.entries = entries;
    }
}

} // verus!
