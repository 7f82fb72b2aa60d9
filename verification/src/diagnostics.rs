//! Rendering findings as diagnostics.
//!
//! Kept apart from the protocol because this is where the wording lives, and
//! the wording is the product: it is the only part most users will ever read.
use crate::extract::{parsed_of, parser_for, version_span, version_span_of};
use crate::model::{
    anchor_of, ecosystem_name, finding_malicious, finding_severity, is_direct, is_toolchain,
    package_text, severity_name, severity_of, severity_rank, shortest_of, url_of, whole_line_of,
    AdvisoryView, ExtractedPackage, ExtractedView, Finding, FindingView, Fix, FixView, KeyView,
    Position, Range, Severity, DEV_GROUP,
};
use crate::path::{file_name, is_same_path, name_of, same_path};
use crate::span::{column, column_of, fit, to_u32, Encoding};
use crate::text::{
    chars, decimal, join_texts, joined_with, lines, lines_of, number, plain_lines, plain_lines_of,
    same, starts_with, tenths, tenths_text, trim, trim_of, Class,
};
use vstd::prelude::*;

verus! {

/// How many hops of a chain are named before the rest is elided.
///
/// Four is already past the point where a reader is scanning rather than
/// reading, and the first is the only one on the line they can edit.
pub const MAX_HOPS: usize = 4;

/// How a diagnostic is shown.
#[derive(Clone, Copy, PartialEq, Eq, Debug, Structural)]
pub enum Level {
    Error,
    Warning,
    Information,
}

// ---- severity ----

/// The level of a severity, one step lower for what does not ship: less likely
/// to matter but not false, so it is demoted rather than hidden.
pub open spec fn level_of(severity: Severity, dev: bool) -> Level {
    let grave = severity == Severity::Critical || severity == Severity::High;
    if grave && !dev {
        Level::Error
    } else if grave || !dev {
        Level::Warning
    } else {
        Level::Information
    }
}

/// The level of a finding. Malware is never demoted: "remove this now" does
/// not become less true because the package is a development dependency.
pub open spec fn finding_level(f: FindingView) -> Level {
    if finding_malicious(f) {
        Level::Error
    } else {
        level_of(finding_severity(f), f.dep_groups.contains(DEV_GROUP@))
    }
}

pub fn severity_level(severity: Severity, dev: bool) -> (r: Level)
    ensures
        r == level_of(severity, dev),
{
    let grave = severity == Severity::Critical || severity == Severity::High;
    if grave && !dev {
        Level::Error
    } else if grave || !dev {
        Level::Warning
    } else {
        Level::Information
    }
}

pub fn severity_for(finding: &Finding) -> (r: Level)
    ensures
        r == finding_level(finding.deep_view()),
{
    if finding.malicious() {
        return Level::Error;
    }
    severity_level(finding.severity(), finding.dev())
}

/// A malicious package is an error, whatever it is needed for.
pub proof fn malware_is_never_demoted(f: FindingView)
    requires
        finding_malicious(f),
    ensures
        finding_level(f) == Level::Error,
{
}

pub open spec fn level_rank(l: Level) -> int {
    match l {
        Level::Error => 2,
        Level::Warning => 1,
        Level::Information => 0,
    }
}

/// A development dependency is demoted by exactly one step.
pub proof fn dev_is_demoted_one_step(severity: Severity)
    ensures
        level_rank(level_of(severity, true)) == level_rank(level_of(severity, false)) - 1,
{
}

// ---- wording ----

/// A severity and its score, where there is one.
pub open spec fn severity_text(severity: Severity, tenths: u16) -> Seq<char> {
    if tenths > 0 {
        severity_name(severity) + " (CVSS "@ + tenths_text(tenths as nat) + ")"@
    } else {
        severity_name(severity)
    }
}

pub fn describe(severity: Severity, score: u16) -> (r: String)
    ensures
        r@ == severity_text(severity, score),
{
    if score > 0 {
        severity.as_str().to_owned().concat(" (CVSS ").concat(
            tenths(score as u64).as_str(),
        ).concat(")")
    } else {
        severity.as_str().to_owned()
    }
}

/// How much is wrong and how bad, omitting a severity nobody published.
pub open spec fn count_text(f: FindingView) -> Seq<char> {
    let n = f.advisories.len();
    if n == 0 {
        decimal(0) + " advisories"@
    } else {
        let severity = severity_of(f.advisories[0]);
        let worst = severity_text(severity, f.advisories[0].cvss_score);
        if severity != Severity::Unknown {
            if n == 1 {
                worst
            } else {
                decimal(n) + " advisories, worst "@ + worst
            }
        } else if n == 1 {
            "1 known vulnerability"@
        } else {
            decimal(n) + " known vulnerabilities"@
        }
    }
}

/// How much is wrong and how bad, omitting a severity nobody published rather
/// than printing "Unknown".
///
/// The Go vulnerability database carries no score on any of its standard
/// library advisories, so a toolchain finding would otherwise read "76
/// advisories, worst Unknown", where only the number does any work.
pub fn count_and_severity(finding: &Finding) -> (r: String)
    ensures
        r@ == count_text(finding.deep_view()),
{
    let n: usize = finding.advisories.len();
    match finding.worst() {
        None => number(0).concat(" advisories"),
        Some(worst) => {
            let severity = worst.severity();
            if severity != Severity::Unknown {
                let text = describe(severity, worst.cvss_score);
                if n == 1 {
                    text
                } else {
                    number(n as u64).concat(" advisories, worst ").concat(text.as_str())
                }
            } else if n == 1 {
                "1 known vulnerability".to_owned()
            } else {
                number(n as u64).concat(" known vulnerabilities")
            }
        },
    }
}

/// Whether the version was resolved in a file other than the one the finding
/// is shown in: a lockfile pinning what a manifest left as a range.
pub open spec fn is_elsewhere(f: FindingView) -> bool {
    !is_same_path(f.evidence.path, anchor_of(f).path)
}

pub fn resolved_elsewhere(finding: &Finding) -> (r: bool)
    ensures
        r == is_elsewhere(finding.deep_view()),
{
    !same_path(finding.evidence.path.as_str(), finding.anchor_site().path.as_str())
}

/// The names of the first hops of a chain.
pub open spec fn hop_names(hops: Seq<KeyView>) -> Seq<Seq<char>> {
    Seq::new(
        if hops.len() > MAX_HOPS { MAX_HOPS as nat } else { hops.len() },
        |i: int| hops[i].name,
    )
}

/// How many other chains there are, in words.
pub open spec fn others_text(paths: nat) -> Seq<char> {
    if paths <= 1 {
        seq![]
    } else if paths == 2 {
        ", and 1 other path"@
    } else {
        ", and "@ + decimal((paths - 1) as nat) + " other paths"@
    }
}

/// The clause naming what pulled a transitive dependency in, its direct
/// dependency first. Nothing for a direct dependency, which nothing pulled in.
pub open spec fn chain_text(f: FindingView) -> Option<Seq<char>> {
    if is_direct(f.paths) {
        None
    } else {
        let hops = f.paths[shortest_of(f.paths)].drop_last();
        Some(
            ". Pulled in by "@ + joined_with(hop_names(hops), " → "@) + (if hops.len()
                > MAX_HOPS {
                " → …"@
            } else {
                ""@
            }) + others_text(f.paths.len()),
        )
    }
}

fn others(paths: usize) -> (r: String)
    ensures
        r@ == others_text(paths as nat),
{
    if paths <= 1 {
        let none = String::new();
        proof {
            assert(none@ =~= seq![]);
        }
        none
    } else if paths == 2 {
        ", and 1 other path".to_owned()
    } else {
        ", and ".to_owned().concat(number((paths - 1) as u64).as_str()).concat(" other paths")
    }
}

/// The clause naming what pulled a transitive dependency in.
///
/// The direct dependency comes first, because it is the one the diagnostic
/// sits on and the only one in the chain the user can edit.
pub fn pulled_in_by(finding: &Finding) -> (r: Option<String>)
    ensures
        r.deep_view() == chain_text(finding.deep_view()),
{
    let ghost f = finding.deep_view();
    let path = match finding.shortest_path() {
        Some(path) => path,
        None => return None,
    };
    if path.len() <= 1 {
        return None;
    }
    // The chain ends with the package itself, which the message has named.
    let count: usize = path.len() - 1;
    let ghost hops = f.paths[shortest_of(f.paths)].drop_last();
    let most: usize = if count > MAX_HOPS { MAX_HOPS } else { count };
    let mut named: Vec<String> = Vec::new();
    while named.len() < most
        invariant
            named@.len() <= most,
            most <= count,
            most == (if count > MAX_HOPS { MAX_HOPS } else { count }),
            count == path@.len() - 1,
            hops == path.deep_view().drop_last(),
            forall|k: int| 0 <= k < named@.len() ==> (#[trigger] named@[k])@ == hop_names(hops)[k],
        decreases most - named@.len(),
    {
        let k: usize = named.len();
        proof {
            assert(hops[k as int] == path@[k as int].deep_view());
        }
        named.push(path[k].name.clone());
    }
    proof {
        assert(named.deep_view() =~= hop_names(hops));
    }
    let more = if count > MAX_HOPS { " → …" } else { "" };
    Some(
        ". Pulled in by ".to_owned().concat(join_texts(&named, " → ").as_str()).concat(
            more,
        ).concat(others(finding.paths.len()).as_str()),
    )
}

/// The version a fix names is one checked back against the whole index, so it
/// clears every advisory. Where none does, saying so beats naming a version
/// that does not finish the job.
pub open spec fn fix_text(f: FindingView) -> Seq<char> {
    match f.fix {
        FixView::Clears(version) => ". Fixed in "@ + version,
        FixView::Partial => if f.advisories.len() == 1 {
            ". No published version clears it"@
        } else {
            ". No single version clears all of them"@
        },
        FixView::Absent => ""@,
    }
}

fn fix_clause(finding: &Finding) -> (r: String)
    ensures
        r@ == fix_text(finding.deep_view()),
{
    match &finding.fix {
        Fix::Clears(version) => ". Fixed in ".to_owned().concat(version.as_str()),
        Fix::Partial => {
            if finding.advisories.len() == 1 {
                ". No published version clears it".to_owned()
            } else {
                ". No single version clears all of them".to_owned()
            }
        },
        Fix::Absent => "".to_owned(),
    }
}

/// Where the version comes from. A transitive dependency gets its chain: the
/// file names no version for it at all, so telling the reader to edit it would
/// send them hunting for one that is not there.
pub open spec fn origin_text(f: FindingView) -> Seq<char> {
    match chain_text(f) {
        Some(clause) => clause,
        None => if is_elsewhere(f) {
            ". Version comes from the lockfile, so editing this file alone will not clear it"@
        } else {
            ""@
        },
    }
}

fn origin_clause(finding: &Finding) -> (r: String)
    ensures
        r@ == origin_text(finding.deep_view()),
{
    match pulled_in_by(finding) {
        Some(clause) => clause,
        None => {
            if resolved_elsewhere(finding) {
                ". Version comes from the lockfile, so editing this file alone will not clear it".to_owned()
            } else {
                "".to_owned()
            }
        },
    }
}

/// What to press, only where a fix exists and can be written somewhere.
pub open spec fn press_text(f: FindingView, fixable: bool, key: Seq<char>) -> Seq<char> {
    match f.fix {
        FixView::Clears(version) => if fixable {
            ". Press "@ + key + " to update to "@ + version
        } else {
            ""@
        },
        _ => ""@,
    }
}

fn press_clause(finding: &Finding, fixable: bool, key: &str) -> (r: String)
    ensures
        r@ == press_text(finding.deep_view(), fixable, key@),
{
    match &finding.fix {
        Fix::Clears(version) => {
            if fixable {
                ". Press ".to_owned().concat(key).concat(" to update to ").concat(
                    version.as_str(),
                )
            } else {
                "".to_owned()
            }
        },
        Fix::Partial => "".to_owned(),
        Fix::Absent => "".to_owned(),
    }
}

/// What a finding is about.
pub open spec fn subject_text(f: FindingView) -> Seq<char> {
    if is_toolchain(f.package.key) {
        "Go toolchain "@ + f.package.version
    } else {
        package_text(f.package)
    }
}

/// The description a diagnostic leads with.
pub open spec fn message_of(f: FindingView, fixable: bool, key: Seq<char>) -> Seq<char> {
    (if finding_malicious(f) { "MALICIOUS: "@ } else { ""@ }) + subject_text(f) + " — "@
        + count_text(f) + fix_text(f) + (if is_toolchain(f.package.key) {
        ". The go directive is a minimum, so the toolchain building this may already be newer"@
    } else {
        ""@
    }) + (if f.from_range {
        ". Version inferred from a range, so the installed one may differ"@
    } else {
        ""@
    }) + origin_text(f) + (if f.dep_groups.contains(DEV_GROUP@) {
        ". Development dependency"@
    } else {
        ""@
    }) + press_text(f, fixable, key)
}

/// The description a diagnostic leads with. `key` runs a quick fix, as the
/// editor most likely binds it: named rather than described, because "a quick
/// fix is available" tells someone who does not know the phrase nothing.
pub fn message_for(finding: &Finding, fixable: bool, key: &str) -> (r: String)
    ensures
        r@ == message_of(finding.deep_view(), fixable, key@),
{
    let toolchain = finding.package.key.is_go_toolchain();
    let mut message = if finding.malicious() { "MALICIOUS: ".to_owned() } else { "".to_owned() };
    let subject = if toolchain {
        "Go toolchain ".to_owned().concat(finding.package.version.as_str())
    } else {
        finding.package.describe()
    };
    message.append(subject.as_str());
    message.append(" — ");
    message.append(count_and_severity(finding).as_str());
    message.append(fix_clause(finding).as_str());
    message.append(
        if toolchain {
            ". The go directive is a minimum, so the toolchain building this may already be newer"
        } else {
            ""
        },
    );
    message.append(
        if finding.from_range {
            ". Version inferred from a range, so the installed one may differ"
        } else {
            ""
        },
    );
    message.append(origin_clause(finding).as_str());
    message.append(if finding.dev() { ". Development dependency" } else { "" });
    // Last, because it is the one clause that is an instruction rather than a
    // fact.
    message.append(press_clause(finding, fixable, key).as_str());
    message
}

/// A chain is named exactly for what something else pulled in.
pub proof fn only_a_transitive_dependency_names_a_chain(f: FindingView)
    ensures
        chain_text(f) is Some <==> !is_direct(f.paths),
{
}

// ---- diagnostics ----

/// Another place a diagnostic points at.
#[derive(Clone, Debug)]
pub struct Related {
    pub path: String,
    pub range: Range,
    pub message: String,
}

/// What a [`Related`] says.
pub struct RelatedView {
    pub path: Seq<char>,
    pub range: Range,
    pub message: Seq<char>,
}

impl DeepView for Related {
    type V = RelatedView;

    open spec fn deep_view(&self) -> RelatedView {
        RelatedView { path: self.path@, range: self.range, message: self.message@ }
    }
}

/// What rides on a diagnostic and comes back on a code action, so that a fix
/// can be offered without rescanning.
#[derive(Clone, Debug)]
pub enum Data {
    Finding {
        ecosystem: String,
        name: String,
        version: String,
        advisories: Vec<String>,
        direct: bool,
        /// Absent where there is nothing to name.
        fixed_version: Option<String>,
    },
    Summary { path: String },
}

/// What a [`Data`] says.
pub enum DataView {
    Finding {
        ecosystem: Seq<char>,
        name: Seq<char>,
        version: Seq<char>,
        advisories: Seq<Seq<char>>,
        direct: bool,
        fixed_version: Option<Seq<char>>,
    },
    Summary { path: Seq<char> },
}

impl DeepView for Data {
    type V = DataView;

    open spec fn deep_view(&self) -> DataView {
        match self {
            Data::Finding {
                ecosystem,
                name,
                version,
                advisories,
                direct,
                fixed_version,
            } => DataView::Finding {
                ecosystem: ecosystem@,
                name: name@,
                version: version@,
                advisories: advisories.deep_view(),
                direct: *direct,
                fixed_version: fixed_version.deep_view(),
            },
            Data::Summary { path } => DataView::Summary { path: path@ },
        }
    }
}

/// Something to show in a file.
#[derive(Clone, Debug)]
pub struct Diagnostic {
    pub range: Range,
    pub level: Level,
    pub code: String,
    /// Where to read more.
    pub href: Option<String>,
    pub message: String,
    pub related: Option<Related>,
    pub data: Data,
}

/// What a [`Diagnostic`] says.
pub struct DiagnosticView {
    pub range: Range,
    pub level: Level,
    pub code: Seq<char>,
    pub href: Option<Seq<char>>,
    pub message: Seq<char>,
    pub related: Option<RelatedView>,
    pub data: DataView,
}

impl DeepView for Diagnostic {
    type V = DiagnosticView;

    open spec fn deep_view(&self) -> DiagnosticView {
        DiagnosticView {
            range: self.range,
            level: self.level,
            code: self.code@,
            href: self.href.deep_view(),
            message: self.message@,
            related: self.related.deep_view(),
            data: self.data.deep_view(),
        }
    }
}

pub open spec fn ids_of(advisories: Seq<AdvisoryView>) -> Seq<Seq<char>> {
    Seq::new(advisories.len(), |i: int| advisories[i].id)
}

/// The diagnostic of a finding. It sits on the version where this file is
/// where that is written, since that is what the user would change, else on
/// the name that put the package here. It points at where the version was
/// resolved, where that is elsewhere.
pub open spec fn diagnostic_of(f: FindingView, version: Option<Range>, key: Seq<char>) -> Option<
    DiagnosticView,
> {
    if f.advisories.len() == 0 {
        None
    } else {
        Some(
            DiagnosticView {
                range: match version {
                    Some(r) => r,
                    None => anchor_of(f).range,
                },
                level: finding_level(f),
                code: f.advisories[0].id,
                href: Some(url_of(f.advisories[0])),
                message: message_of(f, version is Some, key),
                related: if is_elsewhere(f) {
                    Some(
                        RelatedView {
                            path: f.evidence.path,
                            range: f.evidence.range,
                            message: package_text(f.package) + " resolved here"@,
                        },
                    )
                } else {
                    None
                },
                data: DataView::Finding {
                    ecosystem: ecosystem_name(f.package.key.ecosystem),
                    name: f.package.key.name,
                    version: f.package.version,
                    advisories: ids_of(f.advisories),
                    direct: is_direct(f.paths),
                    fixed_version: match f.fix {
                        FixView::Clears(v) => Some(v),
                        _ => None,
                    },
                },
            },
        )
    }
}

fn ids(finding: &Finding) -> (r: Vec<String>)
    ensures
        r.deep_view() == ids_of(finding.deep_view().advisories),
{
    let mut out: Vec<String> = Vec::new();
    let mut i: usize = 0;
    while i < finding.advisories.len()
        invariant
            i <= finding.advisories@.len(),
            out@.len() == i,
            forall|j: int| 0 <= j < i ==> (#[trigger] out@[j])@ == finding.advisories@[j].id@,
        decreases finding.advisories@.len() - i,
    {
        out.push(finding.advisories[i].id.clone());
        i += 1;
    }
    proof {
        assert(out.deep_view() =~= ids_of(finding.deep_view().advisories));
    }
    out
}

/// The diagnostic of a finding, given where its version is written in the
/// file, if it is.
pub fn finding_diagnostic(finding: &Finding, version: Option<Range>, key: &str) -> (r: Option<
    Diagnostic,
>)
    ensures
        r.deep_view() == diagnostic_of(finding.deep_view(), version, key@),
{
    let worst = match finding.worst() {
        Some(worst) => worst,
        None => return None,
    };
    let related = if resolved_elsewhere(finding) {
        Some(
            Related {
                path: finding.evidence.path.clone(),
                range: finding.evidence.range,
                message: finding.package.describe().concat(" resolved here"),
            },
        )
    } else {
        None
    };
    let range = match version {
        Some(r) => r,
        None => finding.anchor_site().range,
    };
    Some(
        Diagnostic {
            range,
            level: severity_for(finding),
            code: worst.id.clone(),
            href: Some(worst.url()),
            message: message_for(finding, version.is_some(), key),
            related,
            data: Data::Finding {
                ecosystem: finding.package.ecosystem().as_str().to_owned(),
                name: finding.package.key.name.clone(),
                version: finding.package.version.clone(),
                advisories: ids(finding),
                direct: finding.direct(),
                fixed_version: match &finding.fix {
                    Fix::Clears(v) => Some(v.clone()),
                    Fix::Partial => None,
                    Fix::Absent => None,
                },
            },
        },
    )
}

// ---- the summary ----

/// How many findings are of a severity.
pub open spec fn count_of(findings: Seq<FindingView>, severity: Severity) -> nat
    decreases findings.len(),
{
    if findings.len() == 0 {
        0
    } else {
        count_of(findings.drop_last(), severity) + (if finding_severity(findings.last())
            == severity {
            1nat
        } else {
            0nat
        })
    }
}

pub open spec fn count_malicious(findings: Seq<FindingView>) -> nat
    decreases findings.len(),
{
    if findings.len() == 0 {
        0
    } else {
        count_malicious(findings.drop_last()) + (if finding_malicious(findings.last()) {
            1nat
        } else {
            0nat
        })
    }
}

pub open spec fn count_transitive(findings: Seq<FindingView>) -> nat
    decreases findings.len(),
{
    if findings.len() == 0 {
        0
    } else {
        count_transitive(findings.drop_last()) + (if is_direct(findings.last().paths) {
            0nat
        } else {
            1nat
        })
    }
}

/// The gravest severity of some findings.
pub open spec fn gravest(findings: Seq<FindingView>) -> Severity
    decreases findings.len(),
{
    if findings.len() == 0 {
        Severity::Unknown
    } else {
        let before = gravest(findings.drop_last());
        let last = finding_severity(findings.last());
        if severity_rank(last) > severity_rank(before) {
            last
        } else {
            before
        }
    }
}

/// A severity in the middle of a sentence.
pub open spec fn lower_name(s: Severity) -> Seq<char> {
    match s {
        Severity::Unknown => "unknown"@,
        Severity::Low => "low"@,
        Severity::Medium => "medium"@,
        Severity::High => "high"@,
        Severity::Critical => "critical"@,
    }
}

pub open spec fn count_part(findings: Seq<FindingView>, s: Severity) -> Seq<Seq<char>> {
    if count_of(findings, s) > 0 {
        seq![decimal(count_of(findings, s)) + " "@ + lower_name(s)]
    } else {
        seq![]
    }
}

/// How many of each severity there are, the gravest first. Those nobody rated
/// are not counted out.
pub open spec fn count_parts(findings: Seq<FindingView>) -> Seq<Seq<char>> {
    count_part(findings, Severity::Critical) + count_part(findings, Severity::High) + count_part(
        findings,
        Severity::Medium,
    ) + count_part(findings, Severity::Low)
}

pub open spec fn summary_text(findings: Seq<FindingView>) -> Seq<char> {
    let parts = count_parts(findings);
    let transitive = count_transitive(findings);
    let malicious = count_malicious(findings);
    decimal(findings.len()) + " vulnerable dependencies"@ + (if parts.len() > 0 {
        " ("@ + joined_with(parts, ", "@) + ")"@
    } else {
        ""@
    }) + (if transitive > 0 {
        ", "@ + decimal(transitive) + " of them transitive"@
    } else {
        ""@
    }) + (if malicious > 0 {
        " — "@ + decimal(malicious) + " MALICIOUS"@
    } else {
        ""@
    })
}

/// What is counted over some findings.
struct Tally {
    critical: usize,
    high: usize,
    medium: usize,
    low: usize,
    malicious: usize,
    transitive: usize,
    worst: Severity,
}

fn count(findings: &Vec<Finding>) -> (r: Tally)
    ensures
        ({
            let all = findings.deep_view();
            &&& r.critical == count_of(all, Severity::Critical)
            &&& r.high == count_of(all, Severity::High)
            &&& r.medium == count_of(all, Severity::Medium)
            &&& r.low == count_of(all, Severity::Low)
            &&& r.malicious == count_malicious(all)
            &&& r.transitive == count_transitive(all)
            &&& r.worst == gravest(all)
        }),
{
    let ghost all = findings.deep_view();
    let mut t = Tally {
        critical: 0,
        high: 0,
        medium: 0,
        low: 0,
        malicious: 0,
        transitive: 0,
        worst: Severity::Unknown,
    };
    let mut i: usize = 0;
    while i < findings.len()
        invariant
            i <= findings@.len(),
            all == findings.deep_view(),
            t.critical <= i,
            t.high <= i,
            t.medium <= i,
            t.low <= i,
            t.malicious <= i,
            t.transitive <= i,
            ({
                let so_far = all.take(i as int);
                &&& t.critical == count_of(so_far, Severity::Critical)
                &&& t.high == count_of(so_far, Severity::High)
                &&& t.medium == count_of(so_far, Severity::Medium)
                &&& t.low == count_of(so_far, Severity::Low)
                &&& t.malicious == count_malicious(so_far)
                &&& t.transitive == count_transitive(so_far)
                &&& t.worst == gravest(so_far)
            }),
        decreases findings@.len() - i,
    {
        let f = &findings[i];
        proof {
            assert(all.take(i + 1).drop_last() =~= all.take(i as int));
            assert(all.take(i + 1).last() == f.deep_view());
        }
        let severity = f.severity();
        match severity {
            Severity::Critical => {
                t.critical = t.critical + 1;
            },
            Severity::High => {
                t.high = t.high + 1;
            },
            Severity::Medium => {
                t.medium = t.medium + 1;
            },
            Severity::Low => {
                t.low = t.low + 1;
            },
            Severity::Unknown => {},
        }
        if severity.rank() > t.worst.rank() {
            t.worst = severity;
        }
        if f.malicious() {
            t.malicious = t.malicious + 1;
        }
        if !f.direct() {
            t.transitive = t.transitive + 1;
        }
        i += 1;
    }
    proof {
        assert(all.take(i as int) =~= all);
    }
    t
}

fn add_part(parts: &mut Vec<String>, n: usize, name: &str)
    ensures
        final(parts).deep_view() == old(parts).deep_view() + (if n > 0 {
            seq![decimal(n as nat) + " "@ + name@]
        } else {
            seq![]
        }),
{
    let ghost before = parts.deep_view();
    if n > 0 {
        let text = number(n as u64).concat(" ").concat(name);
        let ghost said = text@;
        parts.push(text);
        proof {
            assert(parts.deep_view() =~= before + seq![said]);
        }
    } else {
        proof {
            assert(before + seq![] =~= before);
        }
    }
}

fn summary_message(total: usize, t: &Tally, Ghost(findings): Ghost<Seq<FindingView>>) -> (r: String)
    requires
        total == findings.len(),
        t.critical == count_of(findings, Severity::Critical),
        t.high == count_of(findings, Severity::High),
        t.medium == count_of(findings, Severity::Medium),
        t.low == count_of(findings, Severity::Low),
        t.malicious == count_malicious(findings),
        t.transitive == count_transitive(findings),
    ensures
        r@ == summary_text(findings),
{
    let mut parts: Vec<String> = Vec::new();
    proof {
        assert(parts.deep_view() =~= seq![]);
    }
    add_part(&mut parts, t.critical, "critical");
    add_part(&mut parts, t.high, "high");
    add_part(&mut parts, t.medium, "medium");
    add_part(&mut parts, t.low, "low");
    proof {
        assert(parts.deep_view() =~= count_parts(findings));
        assert(parts@.len() == count_parts(findings).len());
    }
    let counts = if parts.len() > 0 {
        " (".to_owned().concat(join_texts(&parts, ", ").as_str()).concat(")")
    } else {
        "".to_owned()
    };
    // Said out loud because the two are acted on differently: a direct one is
    // a version to edit on this line, a transitive one is a dependency to
    // chase somewhere else.
    let transitive = if t.transitive > 0 {
        ", ".to_owned().concat(number(t.transitive as u64).as_str()).concat(
            " of them transitive",
        )
    } else {
        "".to_owned()
    };
    let malicious = if t.malicious > 0 {
        " — ".to_owned().concat(number(t.malicious as u64).as_str()).concat(" MALICIOUS")
    } else {
        "".to_owned()
    };
    number(total as u64).concat(" vulnerable dependencies").concat(counts.as_str()).concat(
        transitive.as_str(),
    ).concat(malicious.as_str())
}

/// The declaration every file of its kind must contain.
#[derive(Clone, Copy, PartialEq, Eq, Debug, Structural)]
pub enum Landmark {
    /// `module ...`
    Module,
    /// `"name"`, at the top level of the document.
    JsonName,
    /// `name = ...`
    TomlName,
}

pub open spec fn landmark_of(name: Seq<char>) -> Option<Landmark> {
    if name == "go.mod"@ {
        Some(Landmark::Module)
    } else if name == "package.json"@ {
        Some(Landmark::JsonName)
    } else if name == "Cargo.toml"@ || name == "pyproject.toml"@ {
        Some(Landmark::TomlName)
    } else {
        None
    }
}

pub open spec fn is_landmark(l: Landmark, line: Seq<char>, depth: int) -> bool {
    match l {
        Landmark::Module => "module "@.is_prefix_of(line),
        Landmark::JsonName => depth == 1 && "\"name\""@.is_prefix_of(line),
        Landmark::TomlName => "name ="@.is_prefix_of(line),
    }
}

/// How often a character stands in some text.
pub open spec fn occurrences(s: Seq<char>, c: char) -> nat
    decreases s.len(),
{
    if s.len() == 0 {
        0
    } else {
        occurrences(s.drop_last(), c) + (if s.last() == c {
            1nat
        } else {
            0nat
        })
    }
}

/// Objects a line opens before its first key, which is what puts
/// `{"name": ...}` on a minified first line at depth 1.
pub open spec fn opens_before(line: Seq<char>) -> nat {
    occurrences(crate::text::before(line, Class::One('"')), '{')
}

pub open spec fn brace_delta(line: Seq<char>) -> int {
    occurrences(line, '{') - occurrences(line, '}')
}

/// The first line from an index on that is a landmark, counted from one.
pub open spec fn landmark_from(l: Landmark, file: Seq<Seq<char>>, i: nat, depth: int) -> Option<nat>
    decreases file.len() - i,
{
    if i >= file.len() {
        None
    } else {
        let line = trim_of(file[i as int], Class::Space);
        // Depth before the line, so that a key on the same line as the brace
        // that opens its object is not counted as being inside it.
        if is_landmark(l, line, depth + opens_before(line)) {
            Some(i + 1)
        } else {
            landmark_from(l, file, i + 1, depth + brace_delta(line))
        }
    }
}

/// The line a file's summary is anchored on: its landmark, which survives
/// reformatting, rather than the first line.
pub open spec fn anchor_line(path: Seq<char>, source: Option<Seq<char>>) -> u32 {
    match (source, landmark_of(name_of(path))) {
        (Some(src), Some(l)) => match landmark_from(l, lines_of(src), 0, 0) {
            Some(n) => fit(n as int),
            None => 1,
        },
        _ => 1,
    }
}

/// How many characters some lines hold together.
spec fn total(file: Seq<Seq<char>>) -> nat
    decreases file.len(),
{
    if file.len() == 0 {
        0
    } else {
        total(file.drop_last()) + file.last().len()
    }
}

proof fn lemma_total_prefix(file: Seq<Seq<char>>, n: int)
    requires
        0 <= n <= file.len(),
    ensures
        total(file.take(n)) <= total(file),
    decreases file.len() - n,
{
    if n < file.len() {
        assert(file.take(n + 1).drop_last() =~= file.take(n));
        lemma_total_prefix(file, n + 1);
    } else {
        assert(file.take(n) =~= file);
    }
}

proof fn lemma_total_front(line: Seq<char>, rest: Seq<Seq<char>>)
    ensures
        total(seq![line] + rest) == line.len() + total(rest),
    decreases rest.len(),
{
    let all = seq![line] + rest;
    if rest.len() == 0 {
        assert(all.drop_last() =~= seq![]);
        assert(total(all.drop_last()) == 0);
    } else {
        assert(all.drop_last() =~= seq![line] + rest.drop_last());
        lemma_total_front(line, rest.drop_last());
        assert(all.last() == rest.last());
    }
}

proof fn lemma_total(s: Seq<char>)
    ensures
        total(lines_of(s)) == s.len(),
    decreases s.len(),
{
    if s.len() > 0 {
        let k = Class::One('\n');
        crate::text::lemma_first_of_is(s, k);
        match crate::text::first_of(s, k) {
            Some(n) => {
                let rest = s.skip(n as int + 1);
                lemma_total(rest);
                lemma_total_front(s.take(n as int + 1), lines_of(rest));
            },
            None => {
                lemma_total_front(s, seq![]);
                assert(seq![s] + Seq::<Seq<char>>::empty() =~= seq![s]);
            },
        }
    }
}

fn count_char(s: &[char], c: char) -> (r: usize)
    ensures
        r == occurrences(s@, c),
        r <= s@.len(),
{
    let mut n: usize = 0;
    let mut i: usize = 0;
    while i < s.len()
        invariant
            i <= s@.len(),
            n <= i,
            n == occurrences(s@.take(i as int), c),
        decreases s@.len() - i,
    {
        proof {
            assert(s@.take(i + 1).drop_last() =~= s@.take(i as int));
        }
        if s[i] == c {
            n += 1;
        }
        i += 1;
    }
    proof {
        assert(s@.take(i as int) =~= s@);
    }
    n
}

fn landmark(name: &str) -> (r: Option<Landmark>)
    ensures
        r == landmark_of(name@),
{
    if same(name, "go.mod") {
        Some(Landmark::Module)
    } else if same(name, "package.json") {
        Some(Landmark::JsonName)
    } else if same(name, "Cargo.toml") || same(name, "pyproject.toml") {
        Some(Landmark::TomlName)
    } else {
        None
    }
}

/// The line a file's summary is anchored on.
///
/// The declaration every file of its kind must contain, so that it survives
/// reformatting, rather than line 1.
pub fn summary_anchor_line(path: &str, source: Option<&str>) -> (r: u32)
    ensures
        r == anchor_line(
            path@,
            match source {
                Some(s) => Some(s@),
                None => None,
            },
        ),
{
    let src = match source {
        Some(s) => s,
        None => return 1,
    };
    let name = file_name(path);
    let l = match landmark(name.as_str()) {
        Some(l) => l,
        None => return 1,
    };
    let all = chars(src);
    let len: usize = all.len();
    let file = lines(all.as_slice());
    let ghost text = file.deep_view();
    proof {
        lemma_total(src@);
    }
    let mut depth: i128 = 0;
    let mut i: usize = 0;
    while i < file.len()
        invariant
            i <= file@.len(),
            text == file.deep_view(),
            text == lines_of(src@),
            source == Some(src),
            len == src@.len(),
            total(text) == len,
            -(total(text.take(i as int)) as int) <= depth <= total(text.take(i as int)),
            landmark_from(l, text, 0, 0) == landmark_from(l, text, i as nat, depth as int),
            landmark_of(name_of(path@)) == Some(l),
        decreases file@.len() - i,
    {
        proof {
            assert(text[i as int] =~= file@[i as int]@);
        }
        let line = trim(file[i].as_slice(), Class::Space);
        let opens: usize = count_char(crate::text::up_to(line, Class::One('"')), '{');
        let braces: usize = count_char(line, '{');
        let closes: usize = count_char(line, '}');
        proof {
            assert(text.take(i + 1).drop_last() =~= text.take(i as int));
            lemma_total_prefix(text, i as int);
            lemma_total_prefix(text, i + 1);
            crate::text::lemma_leading_is(text[i as int], Class::Space);
            crate::text::lemma_trailing_is(
                crate::text::trim_start_of(text[i as int], Class::Space),
                Class::Space,
            );
            crate::text::lemma_first_of_is(line@, Class::One('"'));
            assert(line@.len() <= text[i as int].len());
        }
        let found = match l {
            Landmark::Module => starts_with(line, "module "),
            Landmark::JsonName => depth + (opens as i128) == 1 && starts_with(line, "\"name\""),
            Landmark::TomlName => starts_with(line, "name ="),
        };
        if found {
            let n: usize = i + 1;
            return to_u32(n);
        }
        depth = depth + (braces as i128) - (closes as i128);
        i += 1;
    }
    1
}

/// The line that says how much is wrong with a file.
pub open spec fn summary_of(
    path: Seq<char>,
    findings: Seq<FindingView>,
    source: Option<Seq<char>>,
) -> Option<DiagnosticView> {
    // One finding is its own summary.
    if findings.len() < 2 {
        None
    } else {
        Some(
            DiagnosticView {
                range: whole_line_of(anchor_line(path, source)),
                level: level_of(gravest(findings), false),
                code: "summary"@,
                href: None,
                message: summary_text(findings),
                related: None,
                data: DataView::Summary { path },
            },
        )
    }
}

/// One line saying how much is wrong with a file.
///
/// Per-package diagnostics scatter across files the user may not have open, so
/// nothing otherwise says "this project has a problem" in one place.
pub fn summary(path: &str, findings: &Vec<Finding>, source: Option<&str>) -> (r: Option<Diagnostic>)
    ensures
        r.deep_view() == summary_of(
            path@,
            findings.deep_view(),
            match source {
                Some(s) => Some(s@),
                None => None,
            },
        ),
{
    if findings.len() < 2 {
        return None;
    }
    let t = count(findings);
    let message = summary_message(findings.len(), &t, Ghost(findings.deep_view()));
    Some(
        Diagnostic {
            range: Range::whole_line(summary_anchor_line(path, source)),
            level: severity_level(t.worst, false),
            code: "summary".to_owned(),
            href: None,
            message,
            related: None,
            data: Data::Summary { path: path.to_owned() },
        },
    )
}

// ---- one file ----

/// A position as a client counts columns, where its line is there.
pub open spec fn recoded_position(p: Position, file: Seq<Seq<char>>, encoding: Encoding) -> Position {
    if p.line < file.len() {
        Position {
            line: p.line,
            column: column_of(file[p.line as int], p.column as int, encoding),
        }
    } else {
        p
    }
}

pub open spec fn recoded(r: Range, file: Seq<Seq<char>>, encoding: Encoding) -> Range {
    Range {
        start: recoded_position(r.start, file, encoding),
        end: recoded_position(r.end, file, encoding),
    }
}

fn recode_position(p: Position, file: &Vec<String>, encoding: Encoding) -> (r: Position)
    ensures
        r == recoded_position(p, file.deep_view(), encoding),
{
    let i: usize = p.line as usize;
    if i < file.len() {
        Position {
            line: p.line,
            column: column(file[i].as_str(), p.column as usize, encoding),
        }
    } else {
        p
    }
}

/// A range as a client counts columns.
pub fn reencode(r: Range, file: &Vec<String>, encoding: Encoding) -> (out: Range)
    ensures
        out == recoded(r, file.deep_view(), encoding),
{
    Range {
        start: recode_position(r.start, file, encoding),
        end: recode_position(r.end, file, encoding),
    }
}

/// The diagnostics of the findings of a file.
pub open spec fn rendered(
    findings: Seq<FindingView>,
    sightings: Seq<ExtractedView>,
    key: Seq<char>,
) -> Seq<DiagnosticView>
    decreases findings.len(),
{
    if findings.len() == 0 {
        seq![]
    } else {
        let f = findings.last();
        let before = rendered(findings.drop_last(), sightings, key);
        match diagnostic_of(f, version_span_of(sightings, f), key) {
            Some(d) => before.push(d),
            None => before,
        }
    }
}

/// What the file itself declares.
pub open spec fn sightings_in(path: Seq<char>, source: Option<Seq<char>>) -> Seq<ExtractedView> {
    match (crate::extract::format_of(name_of(path)), source) {
        (Some(format), Some(src)) => parsed_of(format, src, path),
        _ => seq![],
    }
}

pub open spec fn summarised(
    path: Seq<char>,
    findings: Seq<FindingView>,
    source: Option<Seq<char>>,
    key: Seq<char>,
) -> Seq<DiagnosticView> {
    let rest = rendered(findings, sightings_in(path, source), key);
    match summary_of(path, findings, source) {
        Some(s) => seq![s] + rest,
        None => rest,
    }
}

/// A diagnostic as a client counts columns. A manifest that cannot be read
/// still produces diagnostics, just with byte columns.
pub open spec fn encoded(
    d: DiagnosticView,
    source: Option<Seq<char>>,
    encoding: Encoding,
) -> DiagnosticView {
    match (encoding, source) {
        (Encoding::Utf16, Some(src)) => DiagnosticView {
            range: recoded(d.range, plain_lines_of(src), encoding),
            ..d
        },
        _ => d,
    }
}

/// One file's diagnostics: one per finding, after a summary when there is more
/// than one thing wrong.
pub open spec fn diagnostics_of(
    path: Seq<char>,
    findings: Seq<FindingView>,
    source: Option<Seq<char>>,
    encoding: Encoding,
    key: Seq<char>,
) -> Seq<DiagnosticView> {
    let plain = summarised(path, findings, source, key);
    Seq::new(plain.len(), |i: int| encoded(plain[i], source, encoding))
}

fn push_diagnostic(out: &mut Vec<Diagnostic>, d: Diagnostic)
    ensures
        final(out).deep_view() == old(out).deep_view().push(d.deep_view()),
{
    let ghost before = out.deep_view();
    out.push(d);
    proof {
        assert(out.deep_view() =~= before.push(d.deep_view()));
    }
}

/// One file's diagnostics: one per finding, plus a summary when there is more
/// than one thing wrong. `source` is the file's text, where it could be read.
pub fn for_file(
    path: &str,
    findings: &Vec<Finding>,
    source: Option<&str>,
    encoding: Encoding,
    key: &str,
) -> (r: Vec<Diagnostic>)
    ensures
        r.deep_view() == diagnostics_of(
            path@,
            findings.deep_view(),
            match source {
                Some(s) => Some(s@),
                None => None,
            },
            encoding,
            key@,
        ),
{
    let ghost text: Option<Seq<char>> = match source {
        Some(s) => Some(s@),
        None => None,
    };
    let ghost all = findings.deep_view();
    // Which findings a quick fix can actually act on, so that the message only
    // promises one where there is one.
    let format = parser_for(path);
    let sightings: Vec<ExtractedPackage> = match (format, source) {
        (Some(format), Some(src)) => format.parse(src, path),
        _ => Vec::new(),
    };
    let ghost found = sightings_in(path@, text);
    proof {
        assert(sightings.deep_view() =~= found);
    }
    let mut out: Vec<Diagnostic> = Vec::new();
    proof {
        assert(out.deep_view() =~= seq![]);
    }
    let ghost head: Seq<DiagnosticView> = match summary_of(path@, all, text) {
        Some(s) => seq![s],
        None => seq![],
    };
    if let Some(s) = summary(path, findings, source) {
        push_diagnostic(&mut out, s);
    }
    proof {
        assert(out.deep_view() =~= head);
        assert(head + rendered(all.take(0), found, key@) =~= head);
    }
    let mut i: usize = 0;
    while i < findings.len()
        invariant
            i <= findings@.len(),
            all == findings.deep_view(),
            sightings.deep_view() == found,
            out.deep_view() == head + rendered(all.take(i as int), found, key@),
        decreases findings@.len() - i,
    {
        let ghost so_far = out.deep_view();
        proof {
            assert(all.take(i + 1).drop_last() =~= all.take(i as int));
            assert(all.take(i + 1).last() == findings@[i as int].deep_view());
        }
        let version = version_span(&sightings, &findings[i]);
        if let Some(d) = finding_diagnostic(&findings[i], version, key) {
            let ghost view = d.deep_view();
            push_diagnostic(&mut out, d);
            proof {
                assert(so_far.push(view) =~= head + rendered(all.take(i as int), found, key@).push(
                    view,
                ));
            }
        }
        i += 1;
    }
    proof {
        assert(all.take(i as int) =~= all);
        assert(out.deep_view() =~= summarised(path@, all, text, key@));
    }
    let ghost plain = out.deep_view();
    if encoding == Encoding::Utf16 {
        if let Some(src) = source {
            let file = plain_lines(src);
            let mut recoded_all: Vec<Diagnostic> = Vec::new();
            let mut k: usize = 0;
            while k < out.len()
                invariant
                    k <= out@.len(),
                    plain == out.deep_view(),
                    file.deep_view() == plain_lines_of(src@),
                    text == Some(src@),
                    encoding == Encoding::Utf16,
                    recoded_all@.len() == k,
                    forall|j: int|
                        0 <= j < k ==> (#[trigger] recoded_all@[j]).deep_view() == encoded(
                            plain[j],
                            text,
                            encoding,
                        ),
                decreases out@.len() - k,
            {
                let d = &out[k];
                proof {
                    assert(plain[k as int] == d.deep_view());
                }
                let copy = copy_diagnostic(d, reencode(d.range, &file, encoding));
                recoded_all.push(copy);
                k += 1;
            }
            proof {
                assert(recoded_all.deep_view() =~= diagnostics_of(
                    path@,
                    all,
                    text,
                    encoding,
                    key@,
                ));
            }
            return recoded_all;
        }
    }
    proof {
        assert(out.deep_view() =~= diagnostics_of(path@, all, text, encoding, key@));
    }
    out
}

fn copy_data(d: &Data) -> (r: Data)
    ensures
        r.deep_view() == d.deep_view(),
{
    match d {
        Data::Finding { ecosystem, name, version, advisories, direct, fixed_version } =>
            Data::Finding {
            ecosystem: ecosystem.clone(),
            name: name.clone(),
            version: version.clone(),
            advisories: crate::text::copy_strings(advisories),
            direct: *direct,
            fixed_version: crate::text::copy_option(fixed_version),
        },
        Data::Summary { path } => Data::Summary { path: path.clone() },
    }
}

/// A diagnostic at another range.
fn copy_diagnostic(d: &Diagnostic, range: Range) -> (r: Diagnostic)
    ensures
        r.deep_view() == (DiagnosticView { range, ..d.deep_view() }),
{
    Diagnostic {
        range,
        level: d.level,
        code: d.code.clone(),
        href: crate::text::copy_option(&d.href),
        message: d.message.clone(),
        related: match &d.related {
            Some(r) => Some(
                Related { path: r.path.clone(), range: r.range, message: r.message.clone() },
            ),
            None => None,
        },
        data: copy_data(&d.data),
    }
}

/// A path as a `file:` URI, as it stands.
pub open spec fn uri_of(path: Seq<char>) -> Seq<char> {
    "file://"@ + path
}

pub fn file_uri(path: &str) -> (r: String)
    ensures
        r@ == uri_of(path@),
{
    "file://".to_owned().concat(path)
}

} // verus!
