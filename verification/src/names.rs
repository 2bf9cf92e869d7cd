//! The packages that the resolver sees.
//!
//! A crate becomes several packages: one for each of its compatibility classes, one
//! for each feature of such a class, one for each requirement that spans several
//! classes, and one for each native library that only one crate may link.

use vstd::prelude::*;
use crate::version::{SemverCompatibility, VersionReq};

verus! {

/// A package of the resolver.
#[derive(Debug, PartialEq, Eq, Hash)]
pub enum Names {
    /// A compatibility class of a crate; with `true`, the crate that is resolved,
    /// with all its features and development dependencies.
    Bucket(String, SemverCompatibility, bool),
    /// A feature of a compatibility class of a crate.
    BucketFeatures(String, SemverCompatibility, String),
    /// A requirement on a crate that more than one class can meet, with the crate
    /// and class that state it.
    Wide(String, VersionReq, String, SemverCompatibility),
    /// A feature of a crate under such a requirement.
    WideFeatures(String, VersionReq, String, SemverCompatibility, String),
    /// A native library.
    Links(String),
}

/// What a package is.
#[verifier::ext_equal]
pub enum NamesView {
    Bucket(Seq<char>, SemverCompatibility, bool),
    BucketFeatures(Seq<char>, SemverCompatibility, Seq<char>),
    Wide(Seq<char>, Seq<char>, Seq<char>, SemverCompatibility),
    WideFeatures(Seq<char>, Seq<char>, Seq<char>, SemverCompatibility, Seq<char>),
    Links(Seq<char>),
}

impl View for Names {
    type V = NamesView;

    open spec fn view(&self) -> NamesView {
        match *self {
            Names::Bucket(name, c, all) => NamesView::Bucket(name@, c, all),
            Names::BucketFeatures(name, c, feat) => NamesView::BucketFeatures(name@, c, feat@),
            Names::Wide(name, req, parent, c) => NamesView::Wide(name@, req@, parent@, c),
            Names::WideFeatures(name, req, parent, c, feat) => NamesView::WideFeatures(
                name@,
                req@,
                parent@,
                c,
                feat@,
            ),
            Names::Links(link) => NamesView::Links(link@),
        }
    }
}

impl NamesView {
    /// The package stands for a crate of its own, not for a feature, a requirement or
    /// a library.
    pub open spec fn is_real(self) -> bool {
        self is Bucket
    }

    /// The crate that is resolved, as opposed to one that something depends on.
    pub open spec fn is_root(self) -> bool {
        self matches NamesView::Bucket(_, _, all) && all
    }

    /// The crate that the package belongs to.
    pub open spec fn crate_name(self) -> Seq<char>
        recommends
            !(self is Links),
    {
        match self {
            NamesView::Bucket(name, _, _) => name,
            NamesView::BucketFeatures(name, _, _) => name,
            NamesView::Wide(name, _, _, _) => name,
            NamesView::WideFeatures(name, _, _, _, _) => name,
            NamesView::Links(link) => link,
        }
    }

    /// The package for the feature `feat` of this package.
    pub open spec fn featured(self, feat: Seq<char>) -> NamesView
        recommends
            !(self is Links),
    {
        match self {
            NamesView::Bucket(name, c, _) => NamesView::BucketFeatures(name, c, feat),
            NamesView::BucketFeatures(name, c, _) => NamesView::BucketFeatures(name, c, feat),
            NamesView::Wide(name, req, parent, c) => NamesView::WideFeatures(
                name,
                req,
                parent,
                c,
                feat,
            ),
            NamesView::WideFeatures(name, req, parent, c, _) => NamesView::WideFeatures(
                name,
                req,
                parent,
                c,
                feat,
            ),
            NamesView::Links(link) => NamesView::Links(link),
        }
    }
}

impl Clone for Names {
    fn clone(&self) -> (r: Self)
        ensures
            r == *self,
    {
        match self {
            Names::Bucket(name, c, all) => Names::Bucket(name.clone(), *c, *all),
            Names::BucketFeatures(name, c, feat) => Names::BucketFeatures(
                name.clone(),
                *c,
                feat.clone(),
            ),
            Names::Wide(name, req, parent, c) => Names::Wide(
                name.clone(),
                req.clone(),
                parent.clone(),
                *c,
            ),
            Names::WideFeatures(name, req, parent, c, feat) => Names::WideFeatures(
                name.clone(),
                req.clone(),
                parent.clone(),
                *c,
                feat.clone(),
            ),
            Names::Links(link) => Names::Links(link.clone()),
        }
    }
}

/// The package for the class `compat` of the crate `name`.
pub fn new_bucket(name: String, compat: SemverCompatibility, all_features: bool) -> (r: Names)
    ensures
        r@ == NamesView::Bucket(name@, compat, all_features),
{
    Names::Bucket(name, compat, all_features)
}

/// The package for the requirement `req` that `parent` states on the crate `name`.
pub fn new_wide(
    name: String,
    req: VersionReq,
    parent: String,
    parent_compat: SemverCompatibility,
) -> (r: Names)
    ensures
        r@ == NamesView::Wide(name@, req@, parent@, parent_compat),
{
    Names::Wide(name, req, parent, parent_compat)
}

/// The package for the native library `link`.
pub fn new_links(link: String) -> (r: Names)
    ensures
        r@ == NamesView::Links(link@),
{
    Names::Links(link)
}

impl Names {
    /// Whether the package stands for a crate of its own.
    pub fn is_real(&self) -> (r: bool)
        ensures
            r == self@.is_real(),
    {
        match self {
            Names::Bucket(_, _, _) => true,
            _ => false,
        }
    }

    /// Whether the package is the crate that is resolved.
    pub fn is_root(&self) -> (r: bool)
        ensures
            r == self@.is_root(),
    {
        match self {
            Names::Bucket(_, _, all) => *all,
            _ => false,
        }
    }

    /// The crate that the package belongs to.
    pub fn crate_(&self) -> (r: String)
        requires
            !(self@ is Links),
        ensures
            r@ == self@.crate_name(),
    {
        match self {
            Names::Bucket(name, _, _) => name.clone(),
            Names::BucketFeatures(name, _, _) => name.clone(),
            Names::Wide(name, _, _, _) => name.clone(),
            Names::WideFeatures(name, _, _, _, _) => name.clone(),
            Names::Links(link) => link.clone(),
        }
    }

    /// The package for the feature `feat` of this package.
    pub fn with_features(&self, feat: String) -> (r: Names)
        requires
            !(self@ is Links),
        ensures
            r@ == self@.featured(feat@),
    {
        match self {
            Names::Bucket(name, c, _) => Names::BucketFeatures(name.clone(), *c, feat),
            Names::BucketFeatures(name, c, _) => Names::BucketFeatures(name.clone(), *c, feat),
            Names::Wide(name, req, parent, c) => Names::WideFeatures(
                name.clone(),
                req.clone(),
                parent.clone(),
                *c,
                feat,
            ),
            Names::WideFeatures(name, req, parent, c, _) => Names::WideFeatures(
                name.clone(),
                req.clone(),
                parent.clone(),
                *c,
                feat,
            ),
            Names::Links(link) => Names::Links(link.clone()),
        }
    }

    /// Whether both are the same package.
    pub fn same(&self, other: &Names) -> (r: bool)
        ensures
            r == (self@ == other@),
    {
        match (self, other) {
            (Names::Bucket(a, b, c), Names::Bucket(x, y, z)) => *a == *x && *b == *y && *c == *z,
            (Names::BucketFeatures(a, b, c), Names::BucketFeatures(x, y, z)) => *a == *x && *b == *y
                && *c == *z,
            (Names::Wide(a, b, c, d), Names::Wide(x, y, z, w)) => *a == *x && b.same(y) && *c == *z
                && *d == *w,
            (Names::WideFeatures(a, b, c, d, e), Names::WideFeatures(x, y, z, w, v)) => *a == *x
                && b.same(y) && *c == *z && *d == *w && *e == *v,
            (Names::Links(a), Names::Links(x)) => *a == *x,
            _ => false,
        }
    }
}

/// What a package of a crate is named after, whatever its class and features, and what its
/// features are: those of a class are features of that class, those of a requirement are
/// features of that requirement, and a feature in place of another is as one of the package.
pub proof fn what_packages_are(
    name: Seq<char>,
    c: SemverCompatibility,
    all: bool,
    req: Seq<char>,
    parent: Seq<char>,
    f: Seq<char>,
    g: Seq<char>,
)
    ensures
        ({
            let bucket = NamesView::Bucket(name, c, all);
            let feature = NamesView::BucketFeatures(name, c, f);
            let wide = NamesView::Wide(name, req, parent, c);
            let wide_feature = NamesView::WideFeatures(name, req, parent, c, f);
            &&& bucket.featured(f) == feature
            &&& feature.featured(g) == NamesView::BucketFeatures(name, c, g)
            &&& wide.featured(f) == wide_feature
            &&& wide_feature.featured(g) == NamesView::WideFeatures(name, req, parent, c, g)
            &&& bucket.crate_name() == name && feature.crate_name() == name
            &&& wide.crate_name() == name && wide_feature.crate_name() == name
            &&& bucket.is_real() && bucket.is_root() == all
            &&& !feature.is_real() && !wide.is_real() && !wide_feature.is_real()
            &&& !feature.is_root() && !wide.is_root() && !wide_feature.is_root()
            &&& !NamesView::Links(name).is_real() && !NamesView::Links(name).is_root()
        }),
{
}

} // verus!
