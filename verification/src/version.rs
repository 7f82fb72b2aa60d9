//! Per-ecosystem version ordering.
//!
//! The reference is the `semantic` package of osv-scalibr, the comparator the
//! OSV ecosystem's own tooling uses. Strict grammars are no substitute: real
//! advisories hold `1.2`, a leading `v` and `1.2.3.4`, and PyPI's hold
//! thousands of spellings that predate PEP 440. Both comparators here accept
//! every input.
use crate::model::{ecosystem_name, Ecosystem};
use crate::order::{coherent, flip, ordering_of, Order};
use crate::version::pypi::{pypi_of, pypi_order, PyPiVersion, PyPiView};
use crate::version::semver_like::{semver_of, semver_order, SemverLike, SemverView};
use core::cmp::Ordering;
use vstd::prelude::*;

pub mod digits;
pub mod pypi;
pub mod semver_like;

verus! {

/// A parsed version, ready to be compared against others in its ecosystem.
#[derive(Clone, Debug)]
pub enum Version {
    /// npm, Go and crates.io all order versions the same way.
    Semver(SemverLike),
    PyPI(PyPiVersion),
}

/// What a [`Version`] says.
pub enum VersionView {
    Semver(SemverView),
    PyPI(PyPiView),
}

impl DeepView for Version {
    type V = VersionView;

    open spec fn deep_view(&self) -> VersionView {
        match self {
            Version::Semver(v) => VersionView::Semver(v.deep_view()),
            Version::PyPI(v) => VersionView::PyPI(v.deep_view()),
        }
    }
}

/// A version string no ecosystem grammar here can interpret.
///
/// Nothing produces one today, since both comparators accept every input.
/// Keeping the case in the signature means that adding an ecosystem with a
/// fallible grammar changes no caller.
#[derive(Clone, PartialEq, Eq, Debug)]
pub struct ParseError {
    pub version: String,
    pub ecosystem: Ecosystem,
}

impl ParseError {
    /// The error as a sentence.
    pub fn describe(&self) -> (r: String)
        ensures
            r@ == "parse "@ + ecosystem_name(self.ecosystem) + " version \""@ + self.version@
                + "\""@,
    {
        let mut s = "parse ".to_owned();
        s.append(self.ecosystem.as_str());
        s.append(" version \"");
        s.append(self.version.as_str());
        s.append("\"");
        s
    }
}

/// The version a string spells in an ecosystem.
#[verifier::opaque]
pub open spec fn version_of(s: Seq<char>, e: Ecosystem) -> VersionView {
    match e {
        Ecosystem::PyPI => VersionView::PyPI(pypi_of(s)),
        _ => VersionView::Semver(semver_of(s)),
    }
}

/// The version a string spells under the grammar of another version.
#[verifier::opaque]
pub open spec fn version_like(like: VersionView, s: Seq<char>) -> VersionView {
    match like {
        VersionView::Semver(_) => VersionView::Semver(semver_of(s)),
        VersionView::PyPI(_) => VersionView::PyPI(pypi_of(s)),
    }
}

/// How two versions of one ecosystem order. Versions of different ecosystems
/// are not told apart.
#[verifier::opaque]
pub open spec fn version_order(a: VersionView, b: VersionView) -> Order {
    match (a, b) {
        (VersionView::Semver(a), VersionView::Semver(b)) => semver_order(a, b),
        (VersionView::PyPI(a), VersionView::PyPI(b)) => pypi_order(a, b),
        _ => Order::Equal,
    }
}

/// How two version strings order in an ecosystem.
pub open spec fn strings_order(a: Seq<char>, b: Seq<char>, e: Ecosystem) -> Order {
    version_order(version_of(a, e), version_of(b, e))
}

impl Version {
    pub fn parse(version: &str, ecosystem: Ecosystem) -> (r: Result<Version, ParseError>)
        ensures
            r is Ok,
            r->Ok_0.deep_view() == version_of(version@, ecosystem),
    {
        proof {
            reveal(version_of);
            reveal(version_like);
            reveal(version_order);
        }
        match ecosystem {
            Ecosystem::Npm => Ok(Version::Semver(SemverLike::parse(version))),
            Ecosystem::Go => Ok(Version::Semver(SemverLike::parse(version))),
            Ecosystem::CratesIo => Ok(Version::Semver(SemverLike::parse(version))),
            Ecosystem::PyPI => Ok(Version::PyPI(PyPiVersion::parse(version))),
        }
    }

    /// How this version orders against another version string of the same
    /// ecosystem.
    pub fn against(&self, other: &str) -> (r: Order)
        ensures
            r == version_order(self.deep_view(), version_like(self.deep_view(), other@)),
    {
        proof {
            reveal(version_of);
            reveal(version_like);
            reveal(version_order);
        }
        match self {
            Version::Semver(v) => v.order(&SemverLike::parse(other)),
            Version::PyPI(v) => v.order(&PyPiVersion::parse(other)),
        }
    }

    /// Compares against another version string in the same ecosystem.
    pub fn compare_str(&self, other: &str) -> (r: Result<Ordering, ParseError>)
        ensures
            r == Ok::<Ordering, ParseError>(
                ordering_of(version_order(self.deep_view(), version_like(self.deep_view(), other@))),
            ),
    {
        Ok(self.against(other).ordering())
    }

    /// How this version orders against another already parsed.
    pub fn order(&self, other: &Version) -> (r: Order)
        ensures
            r == version_order(self.deep_view(), other.deep_view()),
    {
        proof {
            reveal(version_of);
            reveal(version_like);
            reveal(version_order);
        }
        match (self, other) {
            (Version::Semver(a), Version::Semver(b)) => a.order(b),
            (Version::PyPI(a), Version::PyPI(b)) => a.order(b),
            _ => Order::Equal,
        }
    }

    /// Compares against another already-parsed version.
    ///
    /// Infallible where `compare_str` is not, which is what makes it usable as
    /// a sort comparator. A cross-ecosystem pair orders `Equal`.
    pub fn compare(&self, other: &Version) -> (r: Ordering)
        ensures
            r == ordering_of(version_order(self.deep_view(), other.deep_view())),
    {
        self.order(other).ordering()
    }
}

/// Within an ecosystem, exchanging the sides exchanges the outcome; in
/// particular every version equals itself.
pub proof fn version_order_is_antisymmetric(a: Seq<char>, b: Seq<char>, e: Ecosystem)
    ensures
        strings_order(b, a, e) == flip(strings_order(a, b, e)),
        strings_order(a, a, e) == Order::Equal,
{
    reveal(version_of);
    reveal(version_like);
    reveal(version_order);
    crate::version::semver_like::lemma_semver_flip(semver_of(a), semver_of(b));
    crate::version::semver_like::lemma_semver_flip(semver_of(a), semver_of(a));
    crate::version::pypi::lemma_pypi_flip(pypi_of(a), pypi_of(b));
    crate::version::pypi::lemma_pypi_flip(pypi_of(a), pypi_of(a));
}

/// Within an ecosystem, the order is total and transitive over every string,
/// well formed or not: what is not above does not become above by a detour,
/// and equal versions order alike against a third.
pub proof fn version_order_is_transitive(a: Seq<char>, b: Seq<char>, c: Seq<char>, e: Ecosystem)
    ensures
        coherent(strings_order(a, b, e), strings_order(b, c, e), strings_order(a, c, e)),
        strings_order(a, b, e) != Order::Greater && strings_order(b, c, e) != Order::Greater
            ==> strings_order(a, c, e) != Order::Greater,
{
    reveal(version_of);
    reveal(version_like);
    reveal(version_order);
    crate::version::semver_like::lemma_semver_coherent(semver_of(a), semver_of(b), semver_of(c));
    crate::version::pypi::lemma_pypi_coherent(pypi_of(a), pypi_of(b), pypi_of(c));
}

/// Comparing a parsed version with a string is comparing it with what that
/// string parses to.
pub proof fn comparing_with_a_string_parses_it(a: Seq<char>, b: Seq<char>, e: Ecosystem)
    ensures
        version_order(version_of(a, e), version_like(version_of(a, e), b)) == strings_order(
            a,
            b,
            e,
        ),
{
    reveal(version_of);
    reveal(version_like);
    reveal(version_order);
}

} // verus!
