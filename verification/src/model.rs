//! The domain: packages, advisories, and what was found where.
use crate::path::{normal, normal_of};
use crate::text::{begins, contains, copy_strings, same};
use vstd::prelude::*;

verus! {

/// The dependency group of what is needed only to develop.
pub const DEV_GROUP: &'static str = "dev";

/// The name advisories use for the Go toolchain and its standard library.
pub const GO_TOOLCHAIN: &'static str = "stdlib";

/// A registry packages come from.
#[derive(Clone, Copy, PartialEq, Eq, PartialOrd, Ord, Hash, Debug, Structural)]
pub enum Ecosystem {
    Npm,
    Go,
    PyPI,
    CratesIo,
}

impl DeepView for Ecosystem {
    type V = Ecosystem;

    open spec fn deep_view(&self) -> Ecosystem {
        *self
    }
}

/// How the advisory database spells an ecosystem.
pub open spec fn ecosystem_name(e: Ecosystem) -> Seq<char> {
    match e {
        Ecosystem::Npm => "npm"@,
        Ecosystem::Go => "Go"@,
        Ecosystem::PyPI => "PyPI"@,
        Ecosystem::CratesIo => "crates.io"@,
    }
}

/// Where an ecosystem stands among the others.
pub open spec fn ecosystem_rank(e: Ecosystem) -> int {
    match e {
        Ecosystem::Npm => 0,
        Ecosystem::Go => 1,
        Ecosystem::PyPI => 2,
        Ecosystem::CratesIo => 3,
    }
}

impl Ecosystem {
    /// How the advisory database spells this ecosystem.
    pub fn as_str(self) -> (r: &'static str)
        ensures
            r@ == ecosystem_name(self),
    {
        match self {
            Ecosystem::Npm => "npm",
            Ecosystem::Go => "Go",
            Ecosystem::PyPI => "PyPI",
            Ecosystem::CratesIo => "crates.io",
        }
    }

    /// The ecosystem with exactly this spelling.
    pub fn named(name: &str) -> (r: Option<Ecosystem>)
        ensures
            match r {
                Some(e) => name@ == ecosystem_name(e),
                None => forall|e: Ecosystem| name@ != #[trigger] ecosystem_name(e),
            },
    {
        if same(name, "npm") {
            Some(Ecosystem::Npm)
        } else if same(name, "Go") {
            Some(Ecosystem::Go)
        } else if same(name, "PyPI") {
            Some(Ecosystem::PyPI)
        } else if same(name, "crates.io") {
            Some(Ecosystem::CratesIo)
        } else {
            proof {
                assert forall|e: Ecosystem| name@ != #[trigger] ecosystem_name(e) by {
                    match e {
                        Ecosystem::Npm => {},
                        Ecosystem::Go => {},
                        Ecosystem::PyPI => {},
                        Ecosystem::CratesIo => {},
                    }
                }
            }
            None
        }
    }

    /// Every ecosystem.
    pub fn all() -> (r: Vec<Ecosystem>)
        ensures
            r@ == seq![Ecosystem::Npm, Ecosystem::Go, Ecosystem::PyPI, Ecosystem::CratesIo],
    {
        let r = vec![Ecosystem::Npm, Ecosystem::Go, Ecosystem::PyPI, Ecosystem::CratesIo];
        proof {
            assert(r@ =~= seq![Ecosystem::Npm, Ecosystem::Go, Ecosystem::PyPI, Ecosystem::CratesIo]);
        }
        r
    }
}

/// No two ecosystems are spelled alike, so a spelling names one at most.
pub proof fn ecosystem_names_are_distinct(a: Ecosystem, b: Ecosystem)
    requires
        ecosystem_name(a) == ecosystem_name(b),
    ensures
        a == b,
{
    reveal_strlit("npm");
    reveal_strlit("Go");
    reveal_strlit("PyPI");
    reveal_strlit("crates.io");
    assert(ecosystem_name(Ecosystem::Npm).len() == 3);
    assert(ecosystem_name(Ecosystem::Go).len() == 2);
    assert(ecosystem_name(Ecosystem::PyPI).len() == 4);
    assert(ecosystem_name(Ecosystem::CratesIo).len() == 9);
}

/// A package in an ecosystem, at no particular version.
#[derive(Clone, PartialEq, Eq, PartialOrd, Ord, Hash, Debug)]
pub struct PackageKey {
    pub ecosystem: Ecosystem,
    pub name: String,
}

/// What a [`PackageKey`] says.
pub struct KeyView {
    pub ecosystem: Ecosystem,
    pub name: Seq<char>,
}

impl DeepView for PackageKey {
    type V = KeyView;

    open spec fn deep_view(&self) -> KeyView {
        KeyView { ecosystem: self.ecosystem, name: self.name@ }
    }
}

impl PackageKey {
    pub fn new(ecosystem: Ecosystem, name: &str) -> (r: PackageKey)
        ensures
            r.deep_view() == (KeyView { ecosystem, name: name@ }),
    {
        PackageKey { ecosystem, name: name.to_owned() }
    }

    /// Whether this is the Go toolchain rather than a module.
    pub fn is_go_toolchain(&self) -> (r: bool)
        ensures
            r == is_toolchain(self.deep_view()),
    {
        self.ecosystem == Ecosystem::Go && same(self.name.as_str(), GO_TOOLCHAIN)
    }

    pub fn copy(&self) -> (r: PackageKey)
        ensures
            r.deep_view() == self.deep_view(),
    {
        PackageKey { ecosystem: self.ecosystem, name: self.name.clone() }
    }

    pub fn equals(&self, other: &PackageKey) -> (r: bool)
        ensures
            r == (self.deep_view() == other.deep_view()),
    {
        self.ecosystem == other.ecosystem && same(self.name.as_str(), other.name.as_str())
    }
}

pub open spec fn is_toolchain(key: KeyView) -> bool {
    key.ecosystem == Ecosystem::Go && key.name == GO_TOOLCHAIN@
}

/// A copy of a list of keys.
pub fn copy_keys(v: &Vec<PackageKey>) -> (r: Vec<PackageKey>)
    ensures
        r.deep_view() == v.deep_view(),
{
    let mut out: Vec<PackageKey> = Vec::new();
    let mut i: usize = 0;
    while i < v.len()
        invariant
            i <= v@.len(),
            out@.len() == i,
            forall|j: int| 0 <= j < i ==> (#[trigger] out@[j]).deep_view() == v@[j].deep_view(),
        decreases v@.len() - i,
    {
        out.push(v[i].copy());
        i += 1;
    }
    proof {
        assert(out.deep_view() =~= v.deep_view());
    }
    out
}

/// A copy of a list of chains.
pub fn copy_paths(v: &Vec<Vec<PackageKey>>) -> (r: Vec<Vec<PackageKey>>)
    ensures
        r.deep_view() == v.deep_view(),
{
    let mut out: Vec<Vec<PackageKey>> = Vec::new();
    let mut i: usize = 0;
    while i < v.len()
        invariant
            i <= v@.len(),
            out@.len() == i,
            forall|j: int| 0 <= j < i ==> (#[trigger] out@[j]).deep_view() == v@[j].deep_view(),
        decreases v@.len() - i,
    {
        out.push(copy_keys(&v[i]));
        i += 1;
    }
    proof {
        assert(out.deep_view() =~= v.deep_view());
    }
    out
}

/// A package at a version.
#[derive(Clone, PartialEq, Eq, PartialOrd, Ord, Hash, Debug)]
pub struct Package {
    pub key: PackageKey,
    pub version: String,
}

/// What a [`Package`] says.
pub struct PackageView {
    pub key: KeyView,
    pub version: Seq<char>,
}

impl DeepView for Package {
    type V = PackageView;

    open spec fn deep_view(&self) -> PackageView {
        PackageView { key: self.key.deep_view(), version: self.version@ }
    }
}

/// A package as a message names it: `npm:lodash@4.17.15`.
pub open spec fn package_text(p: PackageView) -> Seq<char> {
    ecosystem_name(p.key.ecosystem) + ":"@ + p.key.name + "@"@ + p.version
}

impl Package {
    pub fn new(ecosystem: Ecosystem, name: &str, version: &str) -> (r: Package)
        ensures
            r.deep_view() == (PackageView {
                key: KeyView { ecosystem, name: name@ },
                version: version@,
            }),
    {
        Package { key: PackageKey::new(ecosystem, name), version: version.to_owned() }
    }

    pub fn name(&self) -> (r: &str)
        ensures
            r@ == self.key.name@,
    {
        self.key.name.as_str()
    }

    pub fn ecosystem(&self) -> (r: Ecosystem)
        ensures
            r == self.key.ecosystem,
    {
        self.key.ecosystem
    }

    /// The package as a message names it: `npm:lodash@4.17.15`.
    pub fn describe(&self) -> (r: String)
        ensures
            r@ == package_text(self.deep_view()),
    {
        let mut s = self.key.ecosystem.as_str().to_owned();
        s.append(":");
        s.append(self.key.name.as_str());
        s.append("@");
        s.append(self.version.as_str());
        s
    }

    pub fn copy(&self) -> (r: Package)
        ensures
            r.deep_view() == self.deep_view(),
    {
        Package { key: self.key.copy(), version: self.version.clone() }
    }

    pub fn equals(&self, other: &Package) -> (r: bool)
        ensures
            r == (self.deep_view() == other.deep_view()),
    {
        self.key.equals(&other.key) && same(self.version.as_str(), other.version.as_str())
    }
}

/// A place in a file: line and column from zero, the column in bytes.
#[derive(Clone, Copy, PartialEq, Eq, PartialOrd, Ord, Hash, Debug, Structural)]
pub struct Position {
    pub line: u32,
    pub column: u32,
}

/// A stretch of a file, its end excluded.
#[derive(Clone, Copy, PartialEq, Eq, PartialOrd, Ord, Hash, Debug, Structural)]
pub struct Range {
    pub start: Position,
    pub end: Position,
}

impl DeepView for Range {
    type V = Range;

    open spec fn deep_view(&self) -> Range {
        *self
    }
}

/// The whole of a line counted from one, up to where the next one starts.
pub open spec fn whole_line_of(line: u32) -> Range {
    let at = if line == 0 { 0u32 } else { (line - 1) as u32 };
    let next = if at == u32::MAX { at } else { (at + 1) as u32 };
    Range { start: Position { line: at, column: 0 }, end: Position { line: next, column: 0 } }
}

impl Range {
    /// The whole of a line counted from one, up to where the next one starts.
    pub fn whole_line(line: u32) -> (r: Range)
        ensures
            r == whole_line_of(line),
    {
        let at: u32 = line.saturating_sub(1);
        Range {
            start: Position { line: at, column: 0 },
            end: Position { line: at.saturating_add(1), column: 0 },
        }
    }

    /// Part of a line counted from zero.
    pub fn on_line(line: u32, start: u32, end: u32) -> (r: Range)
        ensures
            r.start == (Position { line, column: start }),
            r.end == (Position { line, column: end }),
    {
        Range { start: Position { line, column: start }, end: Position { line, column: end } }
    }
}

/// A stretch of a named file.
#[derive(Clone, PartialEq, Eq, Debug)]
pub struct Site {
    pub path: String,
    pub range: Range,
}

/// What a [`Site`] says.
pub struct SiteView {
    pub path: Seq<char>,
    pub range: Range,
}

impl DeepView for Site {
    type V = SiteView;

    open spec fn deep_view(&self) -> SiteView {
        SiteView { path: self.path@, range: self.range }
    }
}

impl Site {
    pub fn new(path: &str, range: Range) -> (r: Site)
        ensures
            r.deep_view() == (SiteView { path: path@, range }),
    {
        Site { path: path.to_owned(), range }
    }

    pub fn copy(&self) -> (r: Site)
        ensures
            r.deep_view() == self.deep_view(),
    {
        Site { path: self.path.clone(), range: self.range }
    }
}

pub fn copy_site(v: &Option<Site>) -> (r: Option<Site>)
    ensures
        r.deep_view() == v.deep_view(),
{
    match v {
        Some(s) => Some(s.copy()),
        None => None,
    }
}

/// How bad an advisory is.
#[derive(Clone, Copy, PartialEq, Eq, PartialOrd, Ord, Hash, Debug, Structural)]
pub enum Severity {
    Unknown,
    Low,
    Medium,
    High,
    Critical,
}

/// Severities from least to most severe.
pub open spec fn severity_rank(s: Severity) -> int {
    match s {
        Severity::Unknown => 0,
        Severity::Low => 1,
        Severity::Medium => 2,
        Severity::High => 3,
        Severity::Critical => 4,
    }
}

pub open spec fn severity_name(s: Severity) -> Seq<char> {
    match s {
        Severity::Unknown => "Unknown"@,
        Severity::Low => "Low"@,
        Severity::Medium => "Medium"@,
        Severity::High => "High"@,
        Severity::Critical => "Critical"@,
    }
}

/// The band a CVSS base score falls in. Scores are in tenths: 98 is 9.8.
pub open spec fn severity_band(tenths: int) -> Severity {
    if tenths >= 90 {
        Severity::Critical
    } else if tenths >= 70 {
        Severity::High
    } else if tenths >= 40 {
        Severity::Medium
    } else if tenths > 0 {
        Severity::Low
    } else {
        Severity::Unknown
    }
}

impl Severity {
    pub fn as_str(self) -> (r: &'static str)
        ensures
            r@ == severity_name(self),
    {
        match self {
            Severity::Unknown => "Unknown",
            Severity::Low => "Low",
            Severity::Medium => "Medium",
            Severity::High => "High",
            Severity::Critical => "Critical",
        }
    }

    /// Where this severity stands, from zero for the least.
    pub fn rank(self) -> (r: u8)
        ensures
            r == severity_rank(self),
    {
        match self {
            Severity::Unknown => 0,
            Severity::Low => 1,
            Severity::Medium => 2,
            Severity::High => 3,
            Severity::Critical => 4,
        }
    }

    /// The band a CVSS base score, in tenths, falls in.
    pub fn of_score(tenths: u16) -> (r: Severity)
        ensures
            r == severity_band(tenths as int),
    {
        if tenths >= 90 {
            Severity::Critical
        } else if tenths >= 70 {
            Severity::High
        } else if tenths >= 40 {
            Severity::Medium
        } else if tenths > 0 {
            Severity::Low
        } else {
            Severity::Unknown
        }
    }
}

/// One window of affected versions. An empty bound is absent.
#[derive(Clone, PartialEq, Eq, Debug, Default)]
pub struct AffectedRange {
    pub introduced: String,
    pub fixed: String,
    pub last_affected: String,
}

/// What an [`AffectedRange`] says.
pub struct RangeView {
    pub introduced: Seq<char>,
    pub fixed: Seq<char>,
    pub last_affected: Seq<char>,
}

impl DeepView for AffectedRange {
    type V = RangeView;

    open spec fn deep_view(&self) -> RangeView {
        RangeView {
            introduced: self.introduced@,
            fixed: self.fixed@,
            last_affected: self.last_affected@,
        }
    }
}

/// What an advisory says of one package.
#[derive(Clone, PartialEq, Eq, Debug)]
pub struct Affected {
    pub package: PackageKey,
    pub ranges: Vec<AffectedRange>,
    pub versions: Vec<String>,
}

/// What an [`Affected`] says.
pub struct AffectedView {
    pub package: KeyView,
    pub ranges: Seq<RangeView>,
    pub versions: Seq<Seq<char>>,
}

impl DeepView for Affected {
    type V = AffectedView;

    open spec fn deep_view(&self) -> AffectedView {
        AffectedView {
            package: self.package.deep_view(),
            ranges: self.ranges.deep_view(),
            versions: self.versions.deep_view(),
        }
    }
}

/// A published vulnerability.
#[derive(Clone, PartialEq, Eq, Debug)]
pub struct Advisory {
    pub id: String,
    pub aliases: Vec<String>,
    pub summary: String,
    /// The CVSS base score in tenths, or zero where none was published.
    pub cvss_score: u16,
    pub cvss_vector: String,
    pub affected: Vec<Affected>,
    pub references: Vec<String>,
}

/// What an [`Advisory`] says.
pub struct AdvisoryView {
    pub id: Seq<char>,
    pub aliases: Seq<Seq<char>>,
    pub summary: Seq<char>,
    pub cvss_score: u16,
    pub cvss_vector: Seq<char>,
    pub affected: Seq<AffectedView>,
    pub references: Seq<Seq<char>>,
}

impl DeepView for Advisory {
    type V = AdvisoryView;

    open spec fn deep_view(&self) -> AdvisoryView {
        AdvisoryView {
            id: self.id@,
            aliases: self.aliases.deep_view(),
            summary: self.summary@,
            cvss_score: self.cvss_score,
            cvss_vector: self.cvss_vector@,
            affected: self.affected.deep_view(),
            references: self.references.deep_view(),
        }
    }
}

/// The prefix of an identifier that reports malware rather than a flaw.
pub open spec fn names_malware(id: Seq<char>) -> bool {
    "MAL-"@.is_prefix_of(id)
}

/// Whether the advisory says the package itself is hostile.
pub open spec fn is_malicious(a: AdvisoryView) -> bool {
    names_malware(a.id) || exists|i: int|
        0 <= i < a.aliases.len() && names_malware(#[trigger] a.aliases[i])
}

/// How bad an advisory is: malware outranks any score.
pub open spec fn severity_of(a: AdvisoryView) -> Severity {
    if is_malicious(a) {
        Severity::Critical
    } else {
        severity_band(a.cvss_score as int)
    }
}

/// The fixed versions some ranges name, in order.
pub open spec fn range_fixes(ranges: Seq<RangeView>) -> Seq<Seq<char>>
    decreases ranges.len(),
{
    if ranges.len() == 0 {
        seq![]
    } else if ranges.last().fixed.len() == 0 {
        range_fixes(ranges.drop_last())
    } else {
        range_fixes(ranges.drop_last()).push(ranges.last().fixed)
    }
}

/// The fixed versions that entries on one package name, in order.
pub open spec fn entry_fixes(affected: Seq<AffectedView>, key: KeyView) -> Seq<Seq<char>>
    decreases affected.len(),
{
    if affected.len() == 0 {
        seq![]
    } else if affected.last().package != key {
        entry_fixes(affected.drop_last(), key)
    } else {
        entry_fixes(affected.drop_last(), key) + range_fixes(affected.last().ranges)
    }
}

/// Where to read about an advisory: its first reference, else its own page.
pub open spec fn url_of(a: AdvisoryView) -> Seq<char> {
    if a.references.len() > 0 {
        a.references[0]
    } else {
        "https://osv.dev/vulnerability/"@ + a.id
    }
}

impl Advisory {
    /// Whether the advisory says the package itself is hostile.
    pub fn malicious(&self) -> (r: bool)
        ensures
            r == is_malicious(self.deep_view()),
    {
        if begins(self.id.as_str(), "MAL-") {
            return true;
        }
        let mut i: usize = 0;
        while i < self.aliases.len()
            invariant
                i <= self.aliases@.len(),
                forall|j: int|
                    0 <= j < i ==> !names_malware(#[trigger] self.deep_view().aliases[j]),
            decreases self.aliases@.len() - i,
        {
            if begins(self.aliases[i].as_str(), "MAL-") {
                proof {
                    assert(names_malware(self.deep_view().aliases[i as int]));
                }
                return true;
            }
            i += 1;
        }
        false
    }

    /// How bad the advisory is.
    pub fn severity(&self) -> (r: Severity)
        ensures
            r == severity_of(self.deep_view()),
    {
        if self.malicious() {
            Severity::Critical
        } else {
            Severity::of_score(self.cvss_score)
        }
    }

    /// Where to read about the advisory.
    pub fn url(&self) -> (r: String)
        ensures
            r@ == url_of(self.deep_view()),
    {
        if self.references.len() > 0 {
            self.references[0].clone()
        } else {
            let mut s = "https://osv.dev/vulnerability/".to_owned();
            s.append(self.id.as_str());
            s
        }
    }

    /// Every version the advisory says fixes one package, in order.
    pub fn fixed_versions_for(&self, key: &PackageKey) -> (r: Vec<String>)
        ensures
            r.deep_view() == entry_fixes(self.deep_view().affected, key.deep_view()),
    {
        let mut out: Vec<String> = Vec::new();
        let mut i: usize = 0;
        let ghost affected = self.affected.deep_view();
        while i < self.affected.len()
            invariant
                i <= self.affected@.len(),
                affected == self.affected.deep_view(),
                out.deep_view() == entry_fixes(affected.take(i as int), key.deep_view()),
            decreases self.affected@.len() - i,
        {
            let entry = &self.affected[i];
            proof {
                assert(affected.take(i + 1).drop_last() =~= affected.take(i as int));
                assert(affected.take(i + 1).last() == entry.deep_view());
            }
            if entry.package.equals(key) {
                let ghost before = out.deep_view();
                let ghost ranges = entry.ranges.deep_view();
                let mut j: usize = 0;
                proof {
                    assert(before + range_fixes(ranges.take(0)) =~= before);
                }
                while j < entry.ranges.len()
                    invariant
                        j <= entry.ranges@.len(),
                        ranges == entry.ranges.deep_view(),
                        out.deep_view() == before + range_fixes(ranges.take(j as int)),
                    decreases entry.ranges@.len() - j,
                {
                    let ghost so_far = out.deep_view();
                    let fixed = &entry.ranges[j].fixed;
                    proof {
                        assert(ranges.take(j + 1).drop_last() =~= ranges.take(j as int));
                        assert(ranges.take(j + 1).last().fixed == fixed@);
                    }
                    if !fixed.as_str().is_empty() {
                        out.push(fixed.clone());
                        proof {
                            assert(out.deep_view() =~= so_far.push(fixed@));
                            assert(so_far.push(fixed@) =~= before + range_fixes(
                                ranges.take(j as int),
                            ).push(fixed@));
                        }
                    }
                    j += 1;
                }
                proof {
                    assert(ranges.take(j as int) =~= ranges);
                }
            }
            i += 1;
        }
        proof {
            assert(affected.take(i as int) =~= affected);
        }
        out
    }

    pub fn copy(&self) -> (r: Advisory)
        ensures
            r.deep_view() == self.deep_view(),
    {
        Advisory {
            id: self.id.clone(),
            aliases: copy_strings(&self.aliases),
            summary: self.summary.clone(),
            cvss_score: self.cvss_score,
            cvss_vector: self.cvss_vector.clone(),
            affected: copy_affected(&self.affected),
            references: copy_strings(&self.references),
        }
    }
}

fn copy_ranges(v: &Vec<AffectedRange>) -> (r: Vec<AffectedRange>)
    ensures
        r.deep_view() == v.deep_view(),
{
    let mut out: Vec<AffectedRange> = Vec::new();
    let mut i: usize = 0;
    while i < v.len()
        invariant
            i <= v@.len(),
            out@.len() == i,
            forall|j: int| 0 <= j < i ==> (#[trigger] out@[j]).deep_view() == v@[j].deep_view(),
        decreases v@.len() - i,
    {
        out.push(
            AffectedRange {
                introduced: v[i].introduced.clone(),
                fixed: v[i].fixed.clone(),
                last_affected: v[i].last_affected.clone(),
            },
        );
        i += 1;
    }
    proof {
        assert(out.deep_view() =~= v.deep_view());
    }
    out
}

fn copy_affected(v: &Vec<Affected>) -> (r: Vec<Affected>)
    ensures
        r.deep_view() == v.deep_view(),
{
    let mut out: Vec<Affected> = Vec::new();
    let mut i: usize = 0;
    while i < v.len()
        invariant
            i <= v@.len(),
            out@.len() == i,
            forall|j: int| 0 <= j < i ==> (#[trigger] out@[j]).deep_view() == v@[j].deep_view(),
        decreases v@.len() - i,
    {
        out.push(
            Affected {
                package: v[i].package.copy(),
                ranges: copy_ranges(&v[i].ranges),
                versions: copy_strings(&v[i].versions),
            },
        );
        i += 1;
    }
    proof {
        assert(out.deep_view() =~= v.deep_view());
    }
    out
}

/// Copies of some advisories.
pub fn copy_advisories(v: &Vec<Advisory>) -> (r: Vec<Advisory>)
    ensures
        r.deep_view() == v.deep_view(),
{
    let mut out: Vec<Advisory> = Vec::new();
    let mut i: usize = 0;
    while i < v.len()
        invariant
            i <= v@.len(),
            out@.len() == i,
            forall|j: int| 0 <= j < i ==> (#[trigger] out@[j]).deep_view() == v@[j].deep_view(),
        decreases v@.len() - i,
    {
        out.push(v[i].copy());
        i += 1;
    }
    proof {
        assert(out.deep_view() =~= v.deep_view());
    }
    out
}

/// What upgrading a package would do.
#[derive(Clone, PartialEq, Eq, Debug)]
pub enum Fix {
    /// This version is affected by nothing that is known.
    Clears(String),
    /// Fixes were published, and none of them clears everything.
    Partial,
    /// No fix above the installed version was published.
    Absent,
}

/// What a [`Fix`] says.
pub enum FixView {
    Clears(Seq<char>),
    Partial,
    Absent,
}

impl DeepView for Fix {
    type V = FixView;

    open spec fn deep_view(&self) -> FixView {
        match self {
            Fix::Clears(v) => FixView::Clears(v@),
            Fix::Partial => FixView::Partial,
            Fix::Absent => FixView::Absent,
        }
    }
}

/// A package some manifest or lockfile names.
#[derive(Clone, PartialEq, Eq, Debug)]
pub struct ExtractedPackage {
    pub package: Package,
    /// Where the version was read.
    pub evidence: Site,
    /// Where the user asked for the package, where that is elsewhere.
    pub declared: Option<Site>,
    pub dep_groups: Vec<String>,
    /// Whether the version is the lowest a constraint admits.
    pub from_range: bool,
    /// Where the version could be rewritten.
    pub version_span: Option<Range>,
    /// How the package is reached: each chain from a declared dependency to it.
    pub paths: Vec<Vec<PackageKey>>,
}

/// What an [`ExtractedPackage`] says.
pub struct ExtractedView {
    pub package: PackageView,
    pub evidence: SiteView,
    pub declared: Option<SiteView>,
    pub dep_groups: Seq<Seq<char>>,
    pub from_range: bool,
    pub version_span: Option<Range>,
    pub paths: Seq<Seq<KeyView>>,
}

impl DeepView for ExtractedPackage {
    type V = ExtractedView;

    open spec fn deep_view(&self) -> ExtractedView {
        ExtractedView {
            package: self.package.deep_view(),
            evidence: self.evidence.deep_view(),
            declared: self.declared.deep_view(),
            dep_groups: self.dep_groups.deep_view(),
            from_range: self.from_range,
            version_span: self.version_span,
            paths: self.paths.deep_view(),
        }
    }
}

impl ExtractedPackage {
    /// The same sighting, with where its version could be rewritten.
    pub fn with_version_span(self, span: Option<Range>) -> (r: ExtractedPackage)
        ensures
            r.deep_view() == (ExtractedView { version_span: span, ..self.deep_view() }),
    {
        ExtractedPackage {
            package: self.package,
            evidence: self.evidence,
            declared: self.declared,
            dep_groups: self.dep_groups,
            from_range: self.from_range,
            version_span: span,
            paths: self.paths,
        }
    }

    /// The same sighting, with the chains that reach it.
    pub fn with_paths(self, paths: Vec<Vec<PackageKey>>) -> (r: ExtractedPackage)
        ensures
            r.deep_view() == (ExtractedView { paths: paths.deep_view(), ..self.deep_view() }),
    {
        ExtractedPackage {
            package: self.package,
            evidence: self.evidence,
            declared: self.declared,
            dep_groups: self.dep_groups,
            from_range: self.from_range,
            version_span: self.version_span,
            paths,
        }
    }

    pub fn copy(&self) -> (r: ExtractedPackage)
        ensures
            r.deep_view() == self.deep_view(),
    {
        ExtractedPackage {
            package: self.package.copy(),
            evidence: self.evidence.copy(),
            declared: copy_site(&self.declared),
            dep_groups: copy_strings(&self.dep_groups),
            from_range: self.from_range,
            version_span: self.version_span,
            paths: copy_paths(&self.paths),
        }
    }
}

/// A dependency that advisories apply to.
#[derive(Clone, PartialEq, Eq, Debug)]
pub struct Finding {
    pub package: Package,
    /// Most severe first.
    pub advisories: Vec<Advisory>,
    pub evidence: Site,
    pub declared: Option<Site>,
    pub paths: Vec<Vec<PackageKey>>,
    pub from_range: bool,
    pub dep_groups: Vec<String>,
    pub fix: Fix,
}

/// What a [`Finding`] says.
pub struct FindingView {
    pub package: PackageView,
    pub advisories: Seq<AdvisoryView>,
    pub evidence: SiteView,
    pub declared: Option<SiteView>,
    pub paths: Seq<Seq<KeyView>>,
    pub from_range: bool,
    pub dep_groups: Seq<Seq<char>>,
    pub fix: FixView,
}

impl DeepView for Finding {
    type V = FindingView;

    open spec fn deep_view(&self) -> FindingView {
        FindingView {
            package: self.package.deep_view(),
            advisories: self.advisories.deep_view(),
            evidence: self.evidence.deep_view(),
            declared: self.declared.deep_view(),
            paths: self.paths.deep_view(),
            from_range: self.from_range,
            dep_groups: self.dep_groups.deep_view(),
            fix: self.fix.deep_view(),
        }
    }
}

/// Where the shortest chain stands, the first of several.
pub open spec fn shortest_of(paths: Seq<Seq<KeyView>>) -> int
    decreases paths.len(),
{
    if paths.len() <= 1 {
        0
    } else {
        let best = shortest_of(paths.drop_last());
        if paths.last().len() < paths[best].len() {
            paths.len() - 1
        } else {
            best
        }
    }
}

/// The shortest chain is one of them, and none is shorter.
pub proof fn shortest_of_is_shortest(paths: Seq<Seq<KeyView>>)
    requires
        paths.len() > 0,
    ensures
        0 <= shortest_of(paths) < paths.len(),
        forall|i: int|
            0 <= i < paths.len() ==> paths[shortest_of(paths)].len() <= (#[trigger] paths[i]).len(),
    decreases paths.len(),
{
    if paths.len() > 1 {
        shortest_of_is_shortest(paths.drop_last());
        let best = shortest_of(paths.drop_last());
        assert(paths.drop_last()[best] == paths[best]);
        assert forall|i: int| 0 <= i < paths.len() implies paths[shortest_of(paths)].len() <= (
        #[trigger] paths[i]).len() by {
            if i < paths.len() - 1 {
                assert(paths.drop_last()[i] == paths[i]);
            }
        }
    }
}

/// A dependency that nothing else pulled in.
pub open spec fn is_direct(paths: Seq<Seq<KeyView>>) -> bool {
    paths.len() == 0 || paths[shortest_of(paths)].len() <= 1
}

/// Where a finding is shown: what the user wrote, else where it was read.
pub open spec fn anchor_of(f: FindingView) -> SiteView {
    match f.declared {
        Some(site) => site,
        None => f.evidence,
    }
}

pub open spec fn finding_severity(f: FindingView) -> Severity {
    if f.advisories.len() > 0 {
        severity_of(f.advisories[0])
    } else {
        Severity::Unknown
    }
}

pub open spec fn finding_malicious(f: FindingView) -> bool {
    exists|i: int| 0 <= i < f.advisories.len() && is_malicious(#[trigger] f.advisories[i])
}

impl Finding {
    /// The advisory to lead with: the list is kept most severe first.
    pub fn worst(&self) -> (r: Option<&Advisory>)
        ensures
            match r {
                Some(a) => self.advisories@.len() > 0 && a.deep_view()
                    == self.deep_view().advisories[0],
                None => self.advisories@.len() == 0,
            },
    {
        if self.advisories.len() == 0 {
            None
        } else {
            Some(&self.advisories[0])
        }
    }

    pub fn severity(&self) -> (r: Severity)
        ensures
            r == finding_severity(self.deep_view()),
    {
        match self.worst() {
            Some(a) => a.severity(),
            None => Severity::Unknown,
        }
    }

    /// Whether any advisory says the package itself is hostile.
    pub fn malicious(&self) -> (r: bool)
        ensures
            r == finding_malicious(self.deep_view()),
    {
        let mut i: usize = 0;
        while i < self.advisories.len()
            invariant
                i <= self.advisories@.len(),
                forall|j: int|
                    0 <= j < i ==> !is_malicious(#[trigger] self.deep_view().advisories[j]),
            decreases self.advisories@.len() - i,
        {
            if self.advisories[i].malicious() {
                proof {
                    assert(is_malicious(self.deep_view().advisories[i as int]));
                }
                return true;
            }
            i += 1;
        }
        false
    }

    /// Whether the package is needed only to develop.
    pub fn dev(&self) -> (r: bool)
        ensures
            r == self.deep_view().dep_groups.contains(DEV_GROUP@),
    {
        contains(&self.dep_groups, DEV_GROUP)
    }

    /// Whether nothing else pulled the package in.
    pub fn direct(&self) -> (r: bool)
        ensures
            r == is_direct(self.deep_view().paths),
    {
        match self.shortest_path() {
            Some(path) => path.len() <= 1,
            None => true,
        }
    }

    /// The shortest chain that reaches the package, where any was found.
    pub fn shortest_path(&self) -> (r: Option<&Vec<PackageKey>>)
        ensures
            match r {
                Some(path) => self.paths@.len() > 0 && path.deep_view() == self.deep_view().paths[
                shortest_of(self.deep_view().paths)],
                None => self.paths@.len() == 0,
            },
    {
        if self.paths.len() == 0 {
            return None;
        }
        let ghost all = self.paths.deep_view();
        let mut best: usize = 0;
        let mut i: usize = 1;
        while i < self.paths.len()
            invariant
                1 <= i <= self.paths@.len(),
                all == self.paths.deep_view(),
                best < i,
                best == shortest_of(all.take(i as int)),
            decreases self.paths@.len() - i,
        {
            proof {
                assert(all.take(i + 1).drop_last() =~= all.take(i as int));
                assert(self.paths@[i as int].deep_view() == all[i as int]);
                assert(self.paths@[best as int].deep_view() == all[best as int]);
            }
            if self.paths[i].len() < self.paths[best].len() {
                best = i;
            }
            i += 1;
        }
        proof {
            assert(all.take(i as int) =~= all);
        }
        Some(&self.paths[best])
    }

    /// Where the finding is shown.
    pub fn anchor_site(&self) -> (r: &Site)
        ensures
            r.deep_view() == anchor_of(self.deep_view()),
    {
        match &self.declared {
            Some(site) => site,
            None => &self.evidence,
        }
    }

    pub fn copy(&self) -> (r: Finding)
        ensures
            r.deep_view() == self.deep_view(),
    {
        Finding {
            package: self.package.copy(),
            advisories: copy_advisories(&self.advisories),
            evidence: self.evidence.copy(),
            declared: copy_site(&self.declared),
            paths: copy_paths(&self.paths),
            from_range: self.from_range,
            dep_groups: copy_strings(&self.dep_groups),
            fix: match &self.fix {
                Fix::Clears(v) => Fix::Clears(v.clone()),
                Fix::Partial => Fix::Partial,
                Fix::Absent => Fix::Absent,
            },
        }
    }
}

/// A dependency a manifest asks for, and where.
#[derive(Clone, PartialEq, Eq, Debug)]
pub struct Declaration {
    pub name: String,
    pub site: Site,
    pub groups: Vec<String>,
}

/// What a [`Declaration`] says.
pub struct DeclarationView {
    pub name: Seq<char>,
    pub site: SiteView,
    pub groups: Seq<Seq<char>>,
}

impl DeepView for Declaration {
    type V = DeclarationView;

    open spec fn deep_view(&self) -> DeclarationView {
        DeclarationView {
            name: self.name@,
            site: self.site.deep_view(),
            groups: self.groups.deep_view(),
        }
    }
}

/// Where the advisories of a report come from.
#[derive(Clone, PartialEq, Eq, Debug)]
pub enum Source {
    /// The archives, complete for every ecosystem in use.
    Archive,
    /// The network, asked about this many packages.
    Api { checked: usize },
    /// The archives that are there; these ecosystems were not checked.
    PartialArchive { missing: Vec<Ecosystem> },
}

/// What a [`Source`] says.
pub enum SourceView {
    Archive,
    Api { checked: nat },
    PartialArchive { missing: Seq<Ecosystem> },
}

impl DeepView for Source {
    type V = SourceView;

    open spec fn deep_view(&self) -> SourceView {
        match self {
            Source::Archive => SourceView::Archive,
            Source::Api { checked } => SourceView::Api { checked: *checked as nat },
            Source::PartialArchive { missing } => SourceView::PartialArchive { missing: missing@ },
        }
    }
}

/// What a scan found.
#[derive(Clone, PartialEq, Eq, Debug)]
pub struct Report {
    pub root: String,
    pub findings: Vec<Finding>,
    pub source: Source,
}

/// What a [`Report`] says.
pub struct ReportView {
    pub root: Seq<char>,
    pub findings: Seq<FindingView>,
    pub source: SourceView,
}

impl DeepView for Report {
    type V = ReportView;

    open spec fn deep_view(&self) -> ReportView {
        ReportView {
            root: self.root@,
            findings: self.findings.deep_view(),
            source: self.source.deep_view(),
        }
    }
}

/// The findings shown in one file.
#[derive(Clone, PartialEq, Eq, Debug)]
pub struct FileFindings {
    pub path: String,
    pub findings: Vec<Finding>,
}

/// What a [`FileFindings`] says.
pub struct FileView {
    pub path: Seq<char>,
    pub findings: Seq<FindingView>,
}

impl DeepView for FileFindings {
    type V = FileView;

    open spec fn deep_view(&self) -> FileView {
        FileView { path: self.path@, findings: self.findings.deep_view() }
    }
}

/// The file a finding is shown in, by the one spelling of its path.
pub open spec fn file_of(f: FindingView) -> Seq<char> {
    normal_of(anchor_of(f).path)
}

/// The files findings are shown in, each once.
pub open spec fn files_of(findings: Seq<FindingView>) -> Seq<Seq<char>>
    decreases findings.len(),
{
    if findings.len() == 0 {
        seq![]
    } else {
        let before = files_of(findings.drop_last());
        let path = file_of(findings.last());
        if before.contains(path) {
            before
        } else {
            before.push(path)
        }
    }
}

/// The findings shown in a file, by the one spelling of its path.
pub open spec fn findings_in(findings: Seq<FindingView>, path: Seq<char>) -> Seq<FindingView>
    decreases findings.len(),
{
    if findings.len() == 0 {
        seq![]
    } else if file_of(findings.last()) == path {
        findings_in(findings.drop_last(), path).push(findings.last())
    } else {
        findings_in(findings.drop_last(), path)
    }
}

/// Findings by the file they are shown in.
pub open spec fn grouped(findings: Seq<FindingView>) -> Seq<FileView> {
    Seq::new(
        files_of(findings).len(),
        |i: int| FileView {
            path: files_of(findings)[i],
            findings: findings_in(findings, files_of(findings)[i]),
        },
    )
}

impl Report {
    pub fn new(root: &str, findings: Vec<Finding>) -> (r: Report)
        ensures
            r.deep_view() == (ReportView {
                root: root@,
                findings: findings.deep_view(),
                source: SourceView::Archive,
            }),
    {
        Report { root: root.to_owned(), findings, source: Source::Archive }
    }

    /// The same report, from the network.
    pub fn from_api(self, checked: usize) -> (r: Report)
        ensures
            r.deep_view() == (ReportView {
                source: SourceView::Api { checked: checked as nat },
                ..self.deep_view()
            }),
    {
        Report { root: self.root, findings: self.findings, source: Source::Api { checked } }
    }

    /// The same report, with ecosystems that were not checked.
    pub fn missing(self, missing: Vec<Ecosystem>) -> (r: Report)
        ensures
            r.deep_view() == (ReportView {
                source: SourceView::PartialArchive { missing: missing@ },
                ..self.deep_view()
            }),
    {
        Report {
            root: self.root,
            findings: self.findings,
            source: Source::PartialArchive { missing },
        }
    }

    /// The findings by the file they are shown in.
    pub fn by_file(&self) -> (r: Vec<FileFindings>)
        ensures
            r.deep_view() == grouped(self.deep_view().findings),
    {
        let ghost all = self.findings.deep_view();
        let files = files(&self.findings);
        let mut paths: Vec<String> = Vec::new();
        let mut i: usize = 0;
        proof {
            assert(paths.deep_view() =~= seq![]);
        }
        while i < self.findings.len()
            invariant
                i <= self.findings@.len(),
                all == self.findings.deep_view(),
                files@.len() == self.findings@.len(),
                forall|k: int|
                    0 <= k < files@.len() ==> (#[trigger] files@[k])@ == file_of(
                        self.findings@[k].deep_view(),
                    ),
                paths.deep_view() == files_of(all.take(i as int)),
            decreases self.findings@.len() - i,
        {
            let path = files[i].as_str();
            let ghost before = paths.deep_view();
            proof {
                assert(all.take(i + 1).drop_last() =~= all.take(i as int));
                assert(all.take(i + 1).last() == self.findings@[i as int].deep_view());
            }
            if !contains(&paths, path) {
                paths.push(path.to_owned());
                proof {
                    assert(paths.deep_view() =~= before.push(path@));
                }
            }
            i += 1;
        }
        proof {
            assert(all.take(i as int) =~= all);
        }
        let ghost want = grouped(all);
        let mut out: Vec<FileFindings> = Vec::new();
        let mut j: usize = 0;
        while j < paths.len()
            invariant
                j <= paths@.len(),
                all == self.findings.deep_view(),
                files@.len() == self.findings@.len(),
                forall|k: int|
                    0 <= k < files@.len() ==> (#[trigger] files@[k])@ == file_of(
                        self.findings@[k].deep_view(),
                    ),
                paths.deep_view() == files_of(all),
                want == grouped(all),
                out@.len() == j,
                forall|k: int| 0 <= k < j ==> (#[trigger] out@[k]).deep_view() == want[k],
            decreases paths@.len() - j,
        {
            proof {
                assert(paths.deep_view()[j as int] == paths@[j as int]@);
            }
            let findings = shown_in(&self.findings, &files, paths[j].as_str());
            out.push(FileFindings { path: paths[j].clone(), findings });
            j += 1;
        }
        proof {
            assert(out.deep_view() =~= want);
        }
        out
    }
}

/// The file each finding is shown in.
fn files(findings: &Vec<Finding>) -> (r: Vec<String>)
    ensures
        r@.len() == findings@.len(),
        forall|k: int|
            0 <= k < r@.len() ==> (#[trigger] r@[k])@ == file_of(findings@[k].deep_view()),
{
    let mut out: Vec<String> = Vec::new();
    let mut i: usize = 0;
    while i < findings.len()
        invariant
            i <= findings@.len(),
            out@.len() == i,
            forall|k: int|
                0 <= k < i ==> (#[trigger] out@[k])@ == file_of(findings@[k].deep_view()),
        decreases findings@.len() - i,
    {
        out.push(normal(findings[i].anchor_site().path.as_str()));
        i += 1;
    }
    out
}

/// Copies of the findings shown in a file.
fn shown_in(findings: &Vec<Finding>, files: &Vec<String>, path: &str) -> (r: Vec<Finding>)
    requires
        files@.len() == findings@.len(),
        forall|k: int|
            0 <= k < files@.len() ==> (#[trigger] files@[k])@ == file_of(findings@[k].deep_view()),
    ensures
        r.deep_view() == findings_in(findings.deep_view(), path@),
{
    let ghost all = findings.deep_view();
    let mut out: Vec<Finding> = Vec::new();
    let mut i: usize = 0;
    proof {
        assert(out.deep_view() =~= seq![]);
    }
    while i < findings.len()
        invariant
            i <= findings@.len(),
            all == findings.deep_view(),
            files@.len() == findings@.len(),
            forall|k: int|
                0 <= k < files@.len() ==> (#[trigger] files@[k])@ == file_of(
                    findings@[k].deep_view(),
                ),
            out.deep_view() == findings_in(all.take(i as int), path@),
        decreases findings@.len() - i,
    {
        let ghost before = out.deep_view();
        proof {
            assert(all.take(i + 1).drop_last() =~= all.take(i as int));
            assert(all.take(i + 1).last() == findings@[i as int].deep_view());
        }
        if same(files[i].as_str(), path) {
            let copy = findings[i].copy();
            out.push(copy);
            proof {
                assert(out.deep_view() =~= before.push(copy.deep_view()));
            }
        }
        i += 1;
    }
    proof {
        assert(all.take(i as int) =~= all);
    }
    out
}

/// Copies of some findings.
pub fn copy_findings(v: &Vec<Finding>) -> (r: Vec<Finding>)
    ensures
        r.deep_view() == v.deep_view(),
{
    let mut out: Vec<Finding> = Vec::new();
    let mut i: usize = 0;
    while i < v.len()
        invariant
            i <= v@.len(),
            out@.len() == i,
            forall|j: int| 0 <= j < i ==> (#[trigger] out@[j]).deep_view() == v@[j].deep_view(),
        decreases v@.len() - i,
    {
        out.push(v[i].copy());
        i += 1;
    }
    proof {
        assert(out.deep_view() =~= v.deep_view());
    }
    out
}

/// Whether some package is of an ecosystem.
pub open spec fn uses(packages: Seq<ExtractedView>, e: Ecosystem) -> bool {
    exists|i: int| 0 <= i < packages.len() && (#[trigger] packages[i]).package.key.ecosystem == e
}

pub open spec fn if_used(packages: Seq<ExtractedView>, e: Ecosystem) -> Seq<Ecosystem> {
    if uses(packages, e) {
        seq![e]
    } else {
        seq![]
    }
}

/// The ecosystems some packages are of, each once.
pub open spec fn ecosystems_in(packages: Seq<ExtractedView>) -> Seq<Ecosystem> {
    if_used(packages, Ecosystem::Npm) + if_used(packages, Ecosystem::Go) + if_used(
        packages,
        Ecosystem::PyPI,
    ) + if_used(packages, Ecosystem::CratesIo)
}

fn is_used(packages: &Vec<ExtractedPackage>, e: Ecosystem) -> (r: bool)
    ensures
        r == uses(packages.deep_view(), e),
{
    let mut i: usize = 0;
    while i < packages.len()
        invariant
            i <= packages@.len(),
            forall|j: int|
                0 <= j < i ==> (#[trigger] packages.deep_view()[j]).package.key.ecosystem != e,
        decreases packages@.len() - i,
    {
        if packages[i].package.ecosystem() == e {
            proof {
                assert(packages.deep_view()[i as int].package.key.ecosystem == e);
            }
            return true;
        }
        i += 1;
    }
    false
}

/// The ecosystems some packages are of, each once.
pub fn ecosystems_of(packages: &Vec<ExtractedPackage>) -> (r: Vec<Ecosystem>)
    ensures
        r@ == ecosystems_in(packages.deep_view()),
{
    let mut out: Vec<Ecosystem> = Vec::new();
    if is_used(packages, Ecosystem::Npm) {
        out.push(Ecosystem::Npm);
    }
    if is_used(packages, Ecosystem::Go) {
        out.push(Ecosystem::Go);
    }
    if is_used(packages, Ecosystem::PyPI) {
        out.push(Ecosystem::PyPI);
    }
    if is_used(packages, Ecosystem::CratesIo) {
        out.push(Ecosystem::CratesIo);
    }
    proof {
        assert(out@ =~= ecosystems_in(packages.deep_view()));
    }
    out
}

proof fn lemma_files(findings: Seq<FindingView>)
    ensures
        files_of(findings).no_duplicates(),
        forall|i: int|
            0 <= i < findings.len() ==> files_of(findings).contains(
                file_of(#[trigger] findings[i]),
            ),
    decreases findings.len(),
{
    if findings.len() > 0 {
        let front = findings.drop_last();
        lemma_files(front);
        let before = files_of(front);
        let out = files_of(findings);
        assert forall|i: int| 0 <= i < findings.len() implies out.contains(
            file_of(#[trigger] findings[i]),
        ) by {
            let p = file_of(findings[i]);
            if i < front.len() {
                assert(front[i] == findings[i]);
                assert(before.contains(p));
                let k = choose|k: int| 0 <= k < before.len() && before[k] == p;
                assert(out[k] == p);
            } else if !before.contains(p) {
                assert(out[before.len() as int] == p);
            }
        }
    }
}

/// Grouping by file loses nothing and names each file once: every finding is
/// in the group of the file it is shown in.
pub proof fn every_finding_is_in_its_file(findings: Seq<FindingView>, i: int) -> (k: int)
    requires
        0 <= i < findings.len(),
    ensures
        files_of(findings).no_duplicates(),
        0 <= k < grouped(findings).len(),
        grouped(findings)[k].path == file_of(findings[i]),
        grouped(findings)[k].findings.contains(findings[i]),
{
    lemma_files(findings);
    let p = file_of(findings[i]);
    assert(files_of(findings).contains(p));
    let k = choose|k: int| 0 <= k < files_of(findings).len() && files_of(findings)[k] == p;
    lemma_shown(findings, i);
    k
}

proof fn lemma_shown(findings: Seq<FindingView>, i: int)
    requires
        0 <= i < findings.len(),
    ensures
        findings_in(findings, file_of(findings[i])).contains(findings[i]),
    decreases findings.len(),
{
    let p = file_of(findings[i]);
    let front = findings.drop_last();
    let out = findings_in(findings, p);
    if i < front.len() {
        lemma_shown(front, i);
        assert(front[i] == findings[i]);
        let before = findings_in(front, p);
        let k = choose|k: int| 0 <= k < before.len() && before[k] == findings[i];
        assert(out[k] == findings[i]);
    } else {
        assert(out[out.len() - 1] == findings[i]);
    }
}

} // verus!
