//! Sets of versions, as the conditions that a version has to meet.

use vstd::prelude::*;
use crate::version::{compatibility, requirement_matches, SemverCompatibility, Version, VersionReq, VersionView};

verus! {

/// One condition on a version.
#[derive(Debug, PartialEq, Eq)]
pub enum Condition {
    /// It is this version.
    Exactly(Version),
    /// It meets this requirement.
    Matching(VersionReq),
    /// It belongs to this compatibility class.
    Compatible(SemverCompatibility),
}

impl Condition {
    /// Whether the version meets the condition.
    pub open spec fn holds(self, v: VersionView) -> bool {
        match self {
            Condition::Exactly(w) => v == w@,
            Condition::Matching(req) => requirement_matches(req@, v),
            Condition::Compatible(c) => compatibility(v) == c,
        }
    }

    fn test(&self, v: &Version) -> (r: bool)
        ensures
            r == self.holds(v@),
    {
        match self {
            Condition::Exactly(w) => v.same(w),
            Condition::Matching(req) => req.matches(v),
            Condition::Compatible(c) => SemverCompatibility::of(v) == *c,
        }
    }
}

impl Clone for Condition {
    fn clone(&self) -> (r: Self)
        ensures
            r == *self,
    {
        match self {
            Condition::Exactly(w) => Condition::Exactly(w.clone()),
            Condition::Matching(req) => Condition::Matching(req.clone()),
            Condition::Compatible(c) => Condition::Compatible(*c),
        }
    }
}

/// The set of the versions that meet every one of a list of conditions.
#[derive(Debug, PartialEq, Eq)]
pub struct VersionSet {
    conditions: Vec<Condition>,
}

/// The versions that meet every condition of the list.
pub open spec fn meeting(conditions: Seq<Condition>) -> Set<VersionView> {
    Set::new(
        |v: VersionView|
            forall|i: int| 0 <= i < conditions.len() ==> (#[trigger] conditions[i]).holds(v),
    )
}

/// The set that holds `v` alone.
pub open spec fn only(v: VersionView) -> Set<VersionView> {
    set![v]
}

/// The versions that meet the requirement.
pub open spec fn matching(req: Seq<char>) -> Set<VersionView> {
    Set::new(|v: VersionView| requirement_matches(req, v))
}

/// The versions of a compatibility class.
pub open spec fn compatible(c: SemverCompatibility) -> Set<VersionView> {
    Set::new(|v: VersionView| compatibility(v) == c)
}

impl View for VersionSet {
    type V = Set<VersionView>;

    closed spec fn view(&self) -> Set<VersionView> {
        meeting(self.conditions@)
    }
}

impl Clone for VersionSet {
    fn clone(&self) -> (r: Self)
        ensures
            r@ == self@,
    {
        let mut conditions: Vec<Condition> = Vec::new();
        let mut i: usize = 0;
        while i < self.conditions.len()
            invariant
                i <= self.conditions.len(),
                conditions@ == self.conditions@.take(i as int),
            decreases self.conditions.len() - i,
        {
            conditions.push(self.conditions[i].clone());
            i += 1;
        }
        proof {
            assert(self.conditions@.take(i as int) =~= self.conditions@);
        }
        VersionSet { conditions }
    }
}

impl VersionSet {
    /// Every version.
    pub fn full() -> (r: VersionSet)
        ensures
            r@ == Set::<VersionView>::full(),
    {
        let r = VersionSet { conditions: Vec::new() };
        assert(r@ =~= Set::<VersionView>::full());
        r
    }

    /// The versions that meet one condition.
    fn one(c: Condition) -> (r: VersionSet)
        ensures
            forall|v: VersionView| #[trigger] r@.contains(v) == c.holds(v),
    {
        let mut conditions: Vec<Condition> = Vec::new();
        conditions.push(c);
        let r = VersionSet { conditions };
        assert forall|v: VersionView| #[trigger] r@.contains(v) == c.holds(v) by {
            assert(r.conditions@[0] == c);
        }
        r
    }

    /// `v` alone.
    pub fn singleton(v: Version) -> (r: VersionSet)
        ensures
            r@ == only(v@),
    {
        let r = VersionSet::one(Condition::Exactly(v));
        assert(r@ =~= only(v@));
        r
    }

    /// The versions that meet `req`.
    pub fn from_req(req: &VersionReq) -> (r: VersionSet)
        ensures
            r@ == matching(req@),
    {
        let r = VersionSet::one(Condition::Matching(req.clone()));
        assert(r@ =~= matching(req@));
        r
    }

    /// The versions of a compatibility class.
    pub fn from_compatibility(c: SemverCompatibility) -> (r: VersionSet)
        ensures
            r@ == compatible(c),
    {
        let r = VersionSet::one(Condition::Compatible(c));
        assert(r@ =~= compatible(c));
        r
    }

    /// The versions that both sets hold.
    pub fn intersection(&self, other: &VersionSet) -> (r: VersionSet)
        ensures
            r@ == self@.intersect(other@),
    {
        let mut first: VersionSet = self.clone();
        let mut second: VersionSet = other.clone();
        let ghost a = first.conditions@;
        let ghost b = second.conditions@;
        first.conditions.append(&mut second.conditions);
        proof {
            let all = first.conditions@;
            assert(all == a + b);
            assert forall|v: VersionView| meeting(all).contains(v) == (meeting(a).contains(v)
                && meeting(b).contains(v)) by {
                if meeting(all).contains(v) {
                    assert forall|i: int| 0 <= i < a.len() implies (#[trigger] a[i]).holds(v) by {
                        assert(all[i] == a[i]);
                    }
                    assert forall|i: int| 0 <= i < b.len() implies (#[trigger] b[i]).holds(v) by {
                        assert(all[a.len() + i] == b[i]);
                    }
                }
            }
            assert(first@ =~= self@.intersect(other@));
        }
        first
    }

    /// Whether the set holds `v`.
    pub fn contains(&self, v: &Version) -> (r: bool)
        ensures
            r == self@.contains(v@),
    {
        let mut i: usize = 0;
        while i < self.conditions.len()
            invariant
                i <= self.conditions.len(),
                forall|j: int| 0 <= j < i ==> (#[trigger] self.conditions@[j]).holds(v@),
            decreases self.conditions.len() - i,
        {
            if !self.conditions[i].test(v) {
                assert(!self.conditions@[i as int].holds(v@));
                return false;
            }
            i += 1;
        }
        true
    }

    /// The conditions that make up the set.
    pub fn conditions(&self) -> (r: &Vec<Condition>)
        ensures
            self@ == meeting(r@),
    {
        &self.conditions
    }
}

/// What the sets hold: the one version, the versions that meet the requirement, those of the
/// class; and of a list of conditions what meets each of them.
pub proof fn what_the_sets_hold(
    v: VersionView,
    w: VersionView,
    req: Seq<char>,
    c: SemverCompatibility,
    conditions: Seq<Condition>,
)
    ensures
        only(v).contains(w) <==> w == v,
        matching(req).contains(w) <==> requirement_matches(req, w),
        compatible(c).contains(w) <==> compatibility(w) == c,
        meeting(conditions).contains(w) <==> forall|i: int|
            0 <= i < conditions.len() ==> match #[trigger] conditions[i] {
                Condition::Exactly(x) => w == x@,
                Condition::Matching(r) => requirement_matches(r@, w),
                Condition::Compatible(d) => compatibility(w) == d,
            },
{
    let met = forall|i: int|
        0 <= i < conditions.len() ==> match #[trigger] conditions[i] {
            Condition::Exactly(x) => w == x@,
            Condition::Matching(r) => requirement_matches(r@, w),
            Condition::Compatible(d) => compatibility(w) == d,
        };
    if meeting(conditions).contains(w) {
        assert forall|i: int| 0 <= i < conditions.len() implies match #[trigger] conditions[i] {
            Condition::Exactly(x) => w == x@,
            Condition::Matching(r) => requirement_matches(r@, w),
            Condition::Compatible(d) => compatibility(w) == d,
        } by {
            assert(conditions[i].holds(w));
        }
    }
    if met {
        assert forall|i: int| 0 <= i < conditions.len() implies (#[trigger] conditions[i]).holds(
            w,
        ) by {}
    }
}

} // verus!
