//! Versions, version requirements and compatibility classes.
//!
//! A [`Version`] and a [`VersionReq`] hold plain values; what only the `semver`
//! crate can say of them (whether a text is well formed, how two versions are
//! ordered, whether a requirement is met) is asked of that crate.

use vstd::prelude::*;
use crate::text::{decimal, decimal_is_unique, decimal_text, is_digit, lemma_cut, lemma_decimal_digits};

verus! {

/// What a version is: its three numbers, its pre-release and its build metadata.
#[verifier::ext_equal]
pub struct VersionView {
    pub major: u64,
    pub minor: u64,
    pub patch: u64,
    pub pre: Seq<char>,
    pub build: Seq<char>,
}

/// `s[i..j]` is one of the dot-separated identifiers of `s`.
pub open spec fn is_identifier(s: Seq<char>, i: int, j: int) -> bool {
    &&& 0 <= i <= j <= s.len()
    &&& i == 0 || s[i - 1] == '.'
    &&& j == s.len() || s[j] == '.'
    &&& forall|k: int| i <= k < j ==> s[k] != '.'
}

/// A character that may occur in an identifier.
pub open spec fn is_identifier_char(c: char) -> bool {
    ('0' <= c && c <= '9') || ('A' <= c && c <= 'Z') || ('a' <= c && c <= 'z') || c == '-'
}

/// A numeric identifier with a leading zero: `00`, `01`.
pub open spec fn has_leading_zero(s: Seq<char>, i: int, j: int) -> bool {
    &&& j - i > 1
    &&& s[i] == '0'
    &&& forall|k: int| i <= k < j ==> '0' <= #[trigger] s[k] && s[k] <= '9'
}

/// A text that can stand as pre-release (`pre`) or as build metadata: empty, or a
/// dot-separated series of non-empty identifiers of ASCII letters, digits and
/// hyphens, of which a numeric one in a pre-release has no leading zero.
pub open spec fn valid_identifiers(s: Seq<char>, pre: bool) -> bool {
    s.len() == 0 || forall|i: int, j: int| #[trigger]
        is_identifier(s, i, j) ==> {
            &&& i < j
            &&& forall|k: int| i <= k < j ==> is_identifier_char(#[trigger] s[k])
            &&& !(pre && has_leading_zero(s, i, j))
        }
}

impl VersionView {
    /// The pre-release and the build metadata are texts that can stand there.
    pub open spec fn valid(self) -> bool {
        valid_identifiers(self.pre, true) && valid_identifiers(self.build, false)
    }

    /// The version `major.minor.patch`, without pre-release or build metadata.
    pub open spec fn plain(major: u64, minor: u64, patch: u64) -> VersionView {
        VersionView { major, minor, patch, pre: Seq::empty(), build: Seq::empty() }
    }

    /// The version as it is written: `1.2.3-pre+build`.
    pub open spec fn text(self) -> Seq<char> {
        let numbers = decimal(self.major as nat) + seq!['.'] + decimal(self.minor as nat)
            + seq!['.'] + decimal(self.patch as nat);
        let with_pre = if self.pre.len() == 0 {
            numbers
        } else {
            numbers + seq!['-'] + self.pre
        };
        if self.build.len() == 0 {
            with_pre
        } else {
            with_pre + seq!['+'] + self.build
        }
    }
}

/// A semantic version.
#[derive(Debug, PartialEq, Eq, Hash)]
pub struct Version {
    major: u64,
    minor: u64,
    patch: u64,
    pre: String,
    build: String,
}

impl View for Version {
    type V = VersionView;

    closed spec fn view(&self) -> VersionView {
        VersionView {
            major: self.major,
            minor: self.minor,
            patch: self.patch,
            pre: self.pre@,
            build: self.build@,
        }
    }
}

impl Clone for Version {
    fn clone(&self) -> (r: Self)
        ensures
            r == *self,
    {
        proof {
            use_type_invariant(self);
        }
        Version {
            major: self.major,
            minor: self.minor,
            patch: self.patch,
            pre: self.pre.clone(),
            build: self.build.clone(),
        }
    }
}

/// Calls `semver::Prerelease::new`: it accepts exactly the texts that
/// [`valid_identifiers`] describes for a pre-release.
#[verifier::external_body]
fn prerelease_accepts(text: &str) -> (r: bool)
    ensures
        r == valid_identifiers(text@, true),
{
    semver::Prerelease::new(text).is_ok()
}

/// Calls `semver::BuildMetadata::new`: it accepts exactly the texts that
/// [`valid_identifiers`] describes for build metadata.
#[verifier::external_body]
fn build_metadata_accepts(text: &str) -> (r: bool)
    ensures
        r == valid_identifiers(text@, false),
{
    semver::BuildMetadata::new(text).is_ok()
}

/// How the order of `semver::Version` decides between two versions with the same
/// three numbers: whether the first pre-release and build metadata come before the
/// second.
pub uninterp spec fn tail_before(
    pre_a: Seq<char>,
    build_a: Seq<char>,
    pre_b: Seq<char>,
    build_b: Seq<char>,
) -> bool;

/// The order of versions: by the three numbers in turn, then by pre-release and
/// build metadata.
pub open spec fn version_before(a: VersionView, b: VersionView) -> bool {
    if a.major != b.major {
        a.major < b.major
    } else if a.minor != b.minor {
        a.minor < b.minor
    } else if a.patch != b.patch {
        a.patch < b.patch
    } else {
        tail_before(a.pre, a.build, b.pre, b.build)
    }
}

/// Compares two versions by the `Ord` of `semver::Version`.
///
/// The numbers are compared in turn and decide where they differ; that order is a
/// strict total order on versions, so it never holds both ways, decides between any
/// two that differ, and what follows `b` also follows `a`.
#[verifier::external_body]
fn semver_lt(a: &Version, b: &Version) -> (r: bool)
    requires
        a@.valid(),
        b@.valid(),
    ensures
        r == if a@.major != b@.major {
            a@.major < b@.major
        } else if a@.minor != b@.minor {
            a@.minor < b@.minor
        } else if a@.patch != b@.patch {
            a@.patch < b@.patch
        } else {
            tail_before(a@.pre, a@.build, b@.pre, b@.build)
        },
        r ==> a@ != b@ && !version_before(b@, a@),
        !r && a@ != b@ ==> version_before(b@, a@),
        r ==> forall|c: VersionView| #[trigger]
            version_before(b@, c) && c.valid() ==> version_before(a@, c) && !version_before(c, a@),
{
    let pre = semver::Prerelease::new(&a.pre).unwrap();
    let build = semver::BuildMetadata::new(&a.build).unwrap();
    let x = semver::Version { major: a.major, minor: a.minor, patch: a.patch, pre, build };
    let pre = semver::Prerelease::new(&b.pre).unwrap();
    let build = semver::BuildMetadata::new(&b.build).unwrap();
    let y = semver::Version { major: b.major, minor: b.minor, patch: b.patch, pre, build };
    x < y
}

/// The dot-separated identifier around the character at `k`.
proof fn lemma_identifier_around(s: Seq<char>, k: int, i: int, j: int)
    requires
        0 <= i <= k < j <= s.len(),
        forall|m: int| i <= m < j ==> s[m] != '.',
    ensures
        exists|a: int, b: int| #[trigger] is_identifier(s, a, b) && a <= k < b,
    decreases s.len() - (j - i),
{
    if i > 0 && s[i - 1] != '.' {
        lemma_identifier_around(s, k, i - 1, j);
    } else if j < s.len() && s[j] != '.' {
        lemma_identifier_around(s, k, i, j + 1);
    } else {
        assert(is_identifier(s, i, j));
    }
}

/// Identifiers and the dots between them hold no other characters.
proof fn lemma_identifier_chars(s: Seq<char>, pre: bool, k: int)
    requires
        valid_identifiers(s, pre),
        0 <= k < s.len(),
    ensures
        s[k] == '.' || is_identifier_char(s[k]),
{
    if s[k] != '.' {
        lemma_identifier_around(s, k, k, k + 1);
        let (a, b) = choose|a: int, b: int| #[trigger] is_identifier(s, a, b) && a <= k < b;
        assert(is_identifier_char(s[k]));
    }
}

/// The part of a written version that follows the numbers.
spec fn tail_text(v: VersionView) -> Seq<char> {
    let pre = if v.pre.len() == 0 {
        v.pre
    } else {
        seq!['-'] + v.pre
    };
    let build = if v.build.len() == 0 {
        v.build
    } else {
        seq!['+'] + v.build
    };
    pre + build
}

proof fn lemma_text_parts(v: VersionView)
    ensures
        v.text() == decimal(v.major as nat) + (seq!['.'] + (decimal(v.minor as nat) + (seq!['.']
            + (decimal(v.patch as nat) + tail_text(v))))),
{
    assert(v.text() =~= decimal(v.major as nat) + (seq!['.'] + (decimal(v.minor as nat) + (seq![
        '.',
    ] + (decimal(v.patch as nat) + tail_text(v))))));
}

/// Two versions with the same text after the numbers have the same pre-release and build
/// metadata.
proof fn lemma_tail_is_unique(a: VersionView, b: VersionView)
    requires
        a.valid(),
        b.valid(),
        tail_text(a) == tail_text(b),
    ensures
        a.pre == b.pre,
        a.build == b.build,
{
    let no_plus = |c: char| c != '+';
    let (pa, pb) = (
        if a.pre.len() == 0 {
            a.pre
        } else {
            seq!['-'] + a.pre
        },
        if b.pre.len() == 0 {
            b.pre
        } else {
            seq!['-'] + b.pre
        },
    );
    let (ma, mb) = (
        if a.build.len() == 0 {
            a.build
        } else {
            seq!['+'] + a.build
        },
        if b.build.len() == 0 {
            b.build
        } else {
            seq!['+'] + b.build
        },
    );
    assert forall|i: int| 0 <= i < pa.len() implies no_plus(#[trigger] pa[i]) by {
        if i > 0 {
            lemma_identifier_chars(a.pre, true, i - 1);
        }
    }
    assert forall|i: int| 0 <= i < pb.len() implies no_plus(#[trigger] pb[i]) by {
        if i > 0 {
            lemma_identifier_chars(b.pre, true, i - 1);
        }
    }
    lemma_cut(no_plus, pa, ma, pb, mb);
    if a.pre.len() > 0 {
        assert(a.pre =~= pa.skip(1));
        assert(b.pre =~= pb.skip(1));
    }
    if a.build.len() > 0 {
        assert(a.build =~= ma.skip(1));
        assert(b.build =~= mb.skip(1));
    }
}

/// No two versions are written alike.
pub proof fn version_text_is_unique(a: VersionView, b: VersionView)
    requires
        a.valid(),
        b.valid(),
        a.text() == b.text(),
    ensures
        a == b,
{
    let digits = |c: char| is_digit(c);
    lemma_text_parts(a);
    lemma_text_parts(b);
    lemma_decimal_digits(a.major as nat);
    lemma_decimal_digits(b.major as nat);
    lemma_decimal_digits(a.minor as nat);
    lemma_decimal_digits(b.minor as nat);
    lemma_decimal_digits(a.patch as nat);
    lemma_decimal_digits(b.patch as nat);
    let (ta, tb) = (tail_text(a), tail_text(b));
    let (ca, cb) = (decimal(a.patch as nat) + ta, decimal(b.patch as nat) + tb);
    let (da, db) = (seq!['.'] + ca, seq!['.'] + cb);
    let (ea, eb) = (decimal(a.minor as nat) + da, decimal(b.minor as nat) + db);
    let (fa, fb) = (seq!['.'] + ea, seq!['.'] + eb);
    lemma_cut(digits, decimal(a.major as nat), fa, decimal(b.major as nat), fb);
    assert(ea =~= fa.skip(1) && eb =~= fb.skip(1));
    lemma_cut(digits, decimal(a.minor as nat), da, decimal(b.minor as nat), db);
    assert(ca =~= da.skip(1) && cb =~= db.skip(1));
    lemma_cut(digits, decimal(a.patch as nat), ta, decimal(b.patch as nat), tb);
    lemma_tail_is_unique(a, b);
    decimal_is_unique(a.major as nat, b.major as nat);
    decimal_is_unique(a.minor as nat, b.minor as nat);
    decimal_is_unique(a.patch as nat, b.patch as nat);
    assert(a =~= b);
}

/// A version is written with digits, identifier characters, dots and a plus sign.
pub proof fn lemma_version_chars(v: VersionView, k: int)
    requires
        v.valid(),
        0 <= k < v.text().len(),
    ensures
        v.text()[k] == '.' || v.text()[k] == '+' || is_identifier_char(v.text()[k]),
{
    lemma_decimal_digits(v.major as nat);
    lemma_decimal_digits(v.minor as nat);
    lemma_decimal_digits(v.patch as nat);
    let (a, b, c) = (
        decimal(v.major as nat),
        decimal(v.minor as nat),
        decimal(v.patch as nat),
    );
    let n = (a.len() + 1 + b.len() + 1 + c.len()) as int;
    let m = if v.pre.len() == 0 {
        n
    } else {
        n + 1 + v.pre.len()
    };
    let t = v.text();
    if k < a.len() {
        assert(t[k] == a[k]);
    } else if a.len() < k < a.len() + 1 + b.len() {
        assert(t[k] == b[k - a.len() - 1]);
    } else if a.len() + 1 + b.len() < k < n {
        assert(t[k] == c[k - a.len() - 1 - b.len() - 1]);
    } else if n < k < m {
        lemma_identifier_chars(v.pre, true, k - n - 1);
        assert(t[k] == v.pre[k - n - 1]);
    } else if m < k {
        lemma_identifier_chars(v.build, false, k - m - 1);
        assert(t[k] == v.build[k - m - 1]);
    }
}

/// Calls `semver::Version::parse`: it reads exactly what [`VersionView::text`] writes of
/// some valid version, and gives the parts of that version.
#[verifier::external_body]
fn semver_parse_version(text: &str) -> (r: Option<(u64, u64, u64, String, String)>)
    ensures
        match r {
            Some(p) => {
                let v = VersionView { major: p.0, minor: p.1, patch: p.2, pre: p.3@, build: p.4@ };
                v.valid() && v.text() == text@
            },
            None => forall|v: VersionView| v.valid() ==> #[trigger] v.text() != text@,
        },
{
    match semver::Version::parse(text) {
        Ok(v) => Some((v.major, v.minor, v.patch, v.pre.to_string(), v.build.to_string())),
        Err(_) => None,
    }
}

impl Version {
    /// Every version is valid.
    #[verifier::type_invariant]
    pub open spec fn wf(self) -> bool {
        self@.valid()
    }

    /// The version `major.minor.patch`.
    pub fn new(major: u64, minor: u64, patch: u64) -> (r: Version)
        ensures
            r@ == VersionView::plain(major, minor, patch),
    {
        Version { major, minor, patch, pre: String::new(), build: String::new() }
    }

    /// The version with the given parts; `None` if `pre` cannot stand as a
    /// pre-release or `build` not as build metadata.
    pub fn from_parts(major: u64, minor: u64, patch: u64, pre: &str, build: &str) -> (r: Option<
        Version,
    >)
        ensures
            r is Some <==> valid_identifiers(pre@, true) && valid_identifiers(build@, false),
            r matches Some(v) ==> v@ == (VersionView {
                major,
                minor,
                patch,
                pre: pre@,
                build: build@,
            }),
    {
        if prerelease_accepts(pre) && build_metadata_accepts(build) {
            let pre: String = pre.to_string();
            let build: String = build.to_string();
            Some(Version { major, minor, patch, pre, build })
        } else {
            None
        }
    }

    /// Reads a version; `None` if no version is written like this.
    pub fn parse(text: &str) -> (r: Option<Version>)
        ensures
            r matches Some(v) ==> v@.text() == text@,
            forall|w: VersionView|
                w.valid() && #[trigger] w.text() == text@ ==> (r matches Some(v) && v@ == w),
    {
        match semver_parse_version(text) {
            Some((major, minor, patch, pre, build)) => {
                let v = Version { major, minor, patch, pre, build };
                proof {
                    assert forall|w: VersionView| w.valid() && #[trigger] w.text() == text@ implies v@
                        == w by {
                        version_text_is_unique(v@, w);
                    }
                }
                Some(v)
            },
            None => None,
        }
    }

    /// The major number.
    pub fn major(&self) -> (r: u64)
        ensures
            r == self@.major,
    {
        self.major
    }

    /// The minor number.
    pub fn minor(&self) -> (r: u64)
        ensures
            r == self@.minor,
    {
        self.minor
    }

    /// The patch number.
    pub fn patch(&self) -> (r: u64)
        ensures
            r == self@.patch,
    {
        self.patch
    }

    /// The pre-release, empty if there is none.
    pub fn pre(&self) -> (r: &str)
        ensures
            r@ == self@.pre,
            valid_identifiers(r@, true),
    {
        proof {
            use_type_invariant(self);
        }
        self.pre.as_str()
    }

    /// The build metadata, empty if there is none.
    pub fn build(&self) -> (r: &str)
        ensures
            r@ == self@.build,
            valid_identifiers(r@, false),
    {
        proof {
            use_type_invariant(self);
        }
        self.build.as_str()
    }

    /// Whether both are the same version.
    pub fn same(&self, other: &Version) -> (r: bool)
        ensures
            r == (self@ == other@),
    {
        let r: bool = self.major == other.major && self.minor == other.minor && self.patch
            == other.patch && self.pre == other.pre && self.build == other.build;
        assert(r == (self@ =~= other@));
        r
    }

    /// Whether this version comes before `other`; exactly one of two different
    /// versions does, and what follows `other` also follows this one.
    pub fn precedes(&self, other: &Version) -> (r: bool)
        ensures
            r == version_before(self@, other@),
            r ==> self@ != other@ && !version_before(other@, self@),
            !r && self@ != other@ ==> version_before(other@, self@),
            r ==> forall|c: VersionView| #[trigger]
                version_before(other@, c) && c.valid() ==> version_before(self@, c)
                    && !version_before(c, self@),
    {
        proof {
            use_type_invariant(self);
            use_type_invariant(other);
        }
        semver_lt(self, other)
    }

    /// The version as it is written.
    pub fn text(&self) -> (r: String)
        ensures
            r@ == self@.text(),
    {
        proof {
            reveal_strlit(".");
            reveal_strlit("-");
            reveal_strlit("+");
            assert("."@ =~= seq!['.']);
            assert("-"@ =~= seq!['-']);
            assert("+"@ =~= seq!['+']);
        }
        let mut r: String = decimal_text(self.major);
        r.append(".");
        r.append(decimal_text(self.minor).as_str());
        r.append(".");
        r.append(decimal_text(self.patch).as_str());
        if !self.pre.as_str().is_empty() {
            r.append("-");
            r.append(self.pre.as_str());
        }
        if !self.build.as_str().is_empty() {
            r.append("+");
            r.append(self.build.as_str());
        }
        r
    }
}

/// The class of versions that may replace each other: those that share the leftmost
/// number that is not zero.
#[derive(Debug, Clone, Copy, PartialEq, Eq, Structural, Hash)]
pub enum SemverCompatibility {
    Major(u64),
    Minor(u64),
    Patch(u64),
}

/// The compatibility class of a version.
pub open spec fn compatibility(v: VersionView) -> SemverCompatibility {
    if v.major != 0 {
        SemverCompatibility::Major(v.major)
    } else if v.minor != 0 {
        SemverCompatibility::Minor(v.minor)
    } else {
        SemverCompatibility::Patch(v.patch)
    }
}

impl SemverCompatibility {
    /// A class that some version has.
    pub open spec fn valid(self) -> bool {
        match self {
            SemverCompatibility::Major(n) => n != 0,
            SemverCompatibility::Minor(n) => n != 0,
            SemverCompatibility::Patch(_) => true,
        }
    }

    /// The version that stands for the class.
    pub open spec fn canonical_view(self) -> VersionView {
        match self {
            SemverCompatibility::Major(n) => VersionView::plain(n, 0, 0),
            SemverCompatibility::Minor(n) => VersionView::plain(0, n, 0),
            SemverCompatibility::Patch(n) => VersionView::plain(0, 0, n),
        }
    }

    /// The class of `version`.
    pub fn of(version: &Version) -> (r: SemverCompatibility)
        ensures
            r == compatibility(version@),
            r.valid(),
    {
        if version.major != 0 {
            SemverCompatibility::Major(version.major)
        } else if version.minor != 0 {
            SemverCompatibility::Minor(version.minor)
        } else {
            SemverCompatibility::Patch(version.patch)
        }
    }

    /// The lowest release of the class.
    pub fn canonical(&self) -> (r: Version)
        ensures
            r@ == self.canonical_view(),
    {
        match *self {
            SemverCompatibility::Major(n) => Version::new(n, 0, 0),
            SemverCompatibility::Minor(n) => Version::new(0, n, 0),
            SemverCompatibility::Patch(n) => Version::new(0, 0, n),
        }
    }
}

/// The canonical version of a class belongs to it, so different classes have
/// different canonical versions.
pub proof fn canonical_belongs_to_its_class(c: SemverCompatibility)
    requires
        c.valid(),
    ensures
        compatibility(c.canonical_view()) == c,
{
}

/// What `semver::VersionReq::parse` makes of a text: the requirement, written as its
/// `Display` writes it, or `None` where it rejects the text.
pub uninterp spec fn parsed_requirement(text: Seq<char>) -> Option<Seq<char>>;

/// Whether the version meets the requirement, by `semver::VersionReq::matches`.
pub uninterp spec fn requirement_matches(req: Seq<char>, version: VersionView) -> bool;

/// Calls `semver::VersionReq::parse` and writes what it gives with its `Display`.
/// A requirement that was written in this way is read back unchanged.
#[verifier::external_body]
fn semver_parse_requirement(text: &str) -> (r: Option<String>)
    ensures
        r is Some <==> parsed_requirement(text@) is Some,
        r matches Some(q) ==> parsed_requirement(text@) == Some(q@) && parsed_requirement(q@)
            == Some(q@),
{
    match semver::VersionReq::parse(text) {
        Ok(req) => Some(req.to_string()),
        Err(_) => None,
    }
}

/// Calls `semver::VersionReq::matches`.
#[verifier::external_body]
fn semver_matches(req: &VersionReq, v: &Version) -> (r: bool)
    requires
        parsed_requirement(req@) == Some(req@),
        v@.valid(),
    ensures
        r == requirement_matches(req@, v@),
{
    let pre = semver::Prerelease::new(&v.pre).unwrap();
    let build = semver::BuildMetadata::new(&v.build).unwrap();
    let x = semver::Version { major: v.major, minor: v.minor, patch: v.patch, pre, build };
    semver::VersionReq::parse(&req.text).unwrap().matches(&x)
}

/// A requirement on versions, such as `^1.2`.
#[derive(Debug, PartialEq, Eq, Hash)]
pub struct VersionReq {
    text: String,
}

impl View for VersionReq {
    type V = Seq<char>;

    closed spec fn view(&self) -> Seq<char> {
        self.text@
    }
}

impl Clone for VersionReq {
    fn clone(&self) -> (r: Self)
        ensures
            r == *self,
    {
        proof {
            use_type_invariant(self);
        }
        VersionReq { text: self.text.clone() }
    }
}

impl VersionReq {
    /// Every requirement is written as it is read.
    #[verifier::type_invariant]
    pub open spec fn wf(self) -> bool {
        parsed_requirement(self@) == Some(self@)
    }

    /// Reads a requirement; `None` if `text` is none.
    pub fn parse(text: &str) -> (r: Option<VersionReq>)
        ensures
            match r {
                Some(req) => parsed_requirement(text@) == Some(req@),
                None => parsed_requirement(text@) is None,
            },
    {
        match semver_parse_requirement(text) {
            Some(text) => Some(VersionReq { text }),
            None => None,
        }
    }

    /// The requirement as it is written.
    pub fn text(&self) -> (r: &str)
        ensures
            r@ == self@,
    {
        self.text.as_str()
    }

    /// Whether both are the same requirement.
    pub fn same(&self, other: &VersionReq) -> (r: bool)
        ensures
            r == (self@ == other@),
    {
        self.text == other.text
    }

    /// Whether `version` meets the requirement.
    pub fn matches(&self, version: &Version) -> (r: bool)
        ensures
            r == requirement_matches(self@, version@),
    {
        proof {
            use_type_invariant(self);
            use_type_invariant(version);
        }
        semver_matches(self, version)
    }
}

/// A version is written as its three numbers with dots between them, then a hyphen and the
/// pre-release if there is one, then a plus sign and the build metadata if there is any.
pub proof fn a_version_is_written_in_parts(v: VersionView)
    ensures
        v.text() == decimal(v.major as nat) + seq!['.'] + decimal(v.minor as nat) + seq!['.']
            + decimal(v.patch as nat) + (if v.pre.len() > 0 {
            seq!['-'] + v.pre
        } else {
            Seq::empty()
        }) + (if v.build.len() > 0 {
            seq!['+'] + v.build
        } else {
            Seq::empty()
        }),
{
    assert(v.text() =~= decimal(v.major as nat) + seq!['.'] + decimal(v.minor as nat) + seq!['.']
        + decimal(v.patch as nat) + (if v.pre.len() > 0 {
        seq!['-'] + v.pre
    } else {
        Seq::empty()
    }) + (if v.build.len() > 0 {
        seq!['+'] + v.build
    } else {
        Seq::empty()
    }));
}

/// Two versions are of one class if and only if they agree in all numbers up to the first
/// that is not zero in one of them.
pub proof fn a_class_shares_the_leftmost_number(v: VersionView, w: VersionView)
    ensures
        compatibility(v) == compatibility(w) <==> v.major == w.major && (v.major != 0 || (v.minor
            == w.minor && (v.minor != 0 || v.patch == w.patch))),
        v.major != 0 ==> compatibility(v) == SemverCompatibility::Major(v.major),
        v.major == 0 && v.minor != 0 ==> compatibility(v) == SemverCompatibility::Minor(v.minor),
        v.major == 0 && v.minor == 0 ==> compatibility(v) == SemverCompatibility::Patch(v.patch),
{
}

/// What stands for the class of a version is the lowest release of it: it keeps the number
/// that names the class, has zero for the others and neither pre-release nor build metadata.
pub proof fn the_lowest_release_stands_for_a_class(v: VersionView)
    ensures
        ({
            let c = compatibility(v).canonical_view();
            &&& compatibility(c) == compatibility(v)
            &&& c.pre.len() == 0
            &&& c.build.len() == 0
            &&& c.major == v.major
            &&& c.minor == if v.major != 0 {
                0
            } else {
                v.minor
            }
            &&& c.patch == if v.major != 0 || v.minor != 0 {
                0
            } else {
                v.patch
            }
        }),
{
}

/// The first number that differs decides which of two versions comes first; where none
/// does, pre-release and build metadata decide.
pub proof fn versions_are_ordered_by_their_numbers(a: VersionView, b: VersionView)
    ensures
        a.major < b.major ==> version_before(a, b) && !version_before(b, a),
        a.major == b.major && a.minor < b.minor ==> version_before(a, b) && !version_before(b, a),
        a.major == b.major && a.minor == b.minor && a.patch < b.patch ==> version_before(a, b)
            && !version_before(b, a),
        a.major == b.major && a.minor == b.minor && a.patch == b.patch ==> version_before(a, b)
            == tail_before(a.pre, a.build, b.pre, b.build),
{
}

/// A version that is made of three numbers has them, and nothing else.
pub proof fn a_plain_version_has_three_numbers(major: u64, minor: u64, patch: u64)
    ensures
        VersionView::plain(major, minor, patch).major == major,
        VersionView::plain(major, minor, patch).minor == minor,
        VersionView::plain(major, minor, patch).patch == patch,
        VersionView::plain(major, minor, patch).pre.len() == 0,
        VersionView::plain(major, minor, patch).build.len() == 0,
{
}

} // verus!
