//! Extraction, database and matching, composed into one scan.
use crate::api::ApiError;
use crate::config::Config;
use crate::db::DbError;
use crate::index::Index;
use crate::load::LoadError;
use crate::matcher::{extracted_views, findings_of, Matcher};
use crate::model::{
    Ecosystem, ExtractedPackage, ExtractedView, Finding, FindingView, Fix, FixView, KeyView,
    PackageKey, Report, ReportView, SourceView,
};
use vstd::prelude::*;

verus! {

/// How often a scan offers the database a chance to revalidate, in seconds.
/// Shorter than the database's own freshness window, because this only asks.
pub const REFRESH_CHECK_EVERY: u64 = 3600;

/// Why a tree could not be walked.
#[derive(Clone, PartialEq, Eq, Debug)]
pub enum ExtractError {
    Walk { root: String, message: String },
}

impl ExtractError {
    /// The error as a sentence.
    pub fn describe(&self) -> (r: String)
        ensures
            r@ == (match self {
                ExtractError::Walk { root, message } => "walk "@ + root@ + ": "@ + message@,
            }),
    {
        match self {
            ExtractError::Walk { root, message } => "walk ".to_owned().concat(
                root.as_str(),
            ).concat(": ").concat(message.as_str()),
        }
    }
}

/// Why a scan gave no report.
#[derive(Clone, PartialEq, Eq, Debug)]
pub enum ScanError {
    /// The archives are still downloading. Deliberately distinct from an empty
    /// report: "still downloading" and "nothing is vulnerable" must never look
    /// alike.
    NotReady,
    Extract(ExtractError),
    Load(LoadError),
    Db(DbError),
    Api(ApiError),
}

/// An error as a sentence.
pub open spec fn scan_error_text(e: ScanError) -> Seq<char> {
    match e {
        ScanError::NotReady => "advisory database not ready"@,
        ScanError::Extract(ExtractError::Walk { root, message }) => "walk "@ + root@ + ": "@
            + message@,
        ScanError::Load(e) => crate::load::error_text(e.deep_view()),
        ScanError::Db(e) => crate::db::error_text(e.deep_view()),
        ScanError::Api(e) => crate::api::error_text(e.deep_view()),
    }
}

impl ScanError {
    /// The error as a sentence.
    pub fn describe(&self) -> (r: String)
        ensures
            r@ == scan_error_text(*self),
    {
        match self {
            ScanError::NotReady => "advisory database not ready".to_owned(),
            ScanError::Extract(e) => e.describe(),
            ScanError::Load(e) => e.describe(),
            ScanError::Db(e) => e.describe(),
            ScanError::Api(e) => e.describe(),
        }
    }
}

/// Produces a report for a workspace.
///
/// A trait rather than one scanner, so that the engine can be driven by a fake;
/// there is one real implementation.
pub trait Scanner: Send + Sync {
    /// Scans `root` and reports every vulnerable dependency under it.
    fn scan(&self, root: &str) -> Result<Report, ScanError>;

    /// Stops background work. Called once, when the engine shuts down.
    fn shutdown(&self) {
    }
}

// ---- what a scan does ----

/// How a scan gets its advisories.
#[derive(Clone, Debug)]
pub enum Plan {
    /// Nothing to look up, so no database is needed and no download is started.
    Nothing,
    /// Every archive is there. It is authoritative: it answers offline, and
    /// covers packages the network was never asked about. Where `refresh` says
    /// so, it is offered a chance to revalidate.
    Archives { refresh: bool },
    /// Some archives are there. Each is published whole, so what is present is
    /// complete. Where `fetch` says so, the rest are downloaded.
    Partly { ready: Vec<Ecosystem>, missing: Vec<Ecosystem>, fetch: bool },
    /// Nothing is there: ask about the packages in hand.
    Online,
    /// Nothing is there and nothing may be asked: download, and wait.
    Download,
    /// Nothing is there and nothing may be fetched.
    Refuse,
}

/// What a [`Plan`] says.
pub enum PlanView {
    Nothing,
    Archives { refresh: bool },
    Partly { ready: Seq<Ecosystem>, missing: Seq<Ecosystem>, fetch: bool },
    Online,
    Download,
    Refuse,
}

impl DeepView for Plan {
    type V = PlanView;

    open spec fn deep_view(&self) -> PlanView {
        match self {
            Plan::Nothing => PlanView::Nothing,
            Plan::Archives { refresh } => PlanView::Archives { refresh: *refresh },
            Plan::Partly { ready, missing, fetch } => PlanView::Partly {
                ready: ready@,
                missing: missing@,
                fetch: *fetch,
            },
            Plan::Online => PlanView::Online,
            Plan::Download => PlanView::Download,
            Plan::Refuse => PlanView::Refuse,
        }
    }
}

/// The ecosystems of a list that are, or are not, in another.
pub open spec fn among(list: Seq<Ecosystem>, other: Seq<Ecosystem>, wanted: bool) -> Seq<Ecosystem>
    decreases list.len(),
{
    if list.len() == 0 {
        seq![]
    } else if other.contains(list.last()) == wanted {
        among(list.drop_last(), other, wanted).push(list.last())
    } else {
        among(list.drop_last(), other, wanted)
    }
}

/// What a scan does, given the ecosystems in use, those whose archive is
/// there, and the configuration.
pub open spec fn plan_of(
    ecosystems: Seq<Ecosystem>,
    present: Seq<Ecosystem>,
    enabled: bool,
    offline: bool,
) -> PlanView {
    let ready = among(ecosystems, present, true);
    let missing = among(ecosystems, present, false);
    if ecosystems.len() == 0 {
        PlanView::Nothing
    } else if missing.len() == 0 {
        PlanView::Archives { refresh: !offline }
    } else if ready.len() > 0 {
        PlanView::Partly { ready, missing, fetch: !offline }
    } else if enabled && !offline {
        PlanView::Online
    } else if !offline {
        PlanView::Download
    } else {
        PlanView::Refuse
    }
}

fn has(list: &Vec<Ecosystem>, e: Ecosystem) -> (r: bool)
    ensures
        r == list@.contains(e),
{
    let mut i: usize = 0;
    while i < list.len()
        invariant
            i <= list@.len(),
            forall|j: int| 0 <= j < i ==> list@[j] != e,
        decreases list@.len() - i,
    {
        if list[i] == e {
            return true;
        }
        i += 1;
    }
    false
}

/// The ecosystems of a list that are, or are not, in another.
pub fn pick(list: &Vec<Ecosystem>, other: &Vec<Ecosystem>, wanted: bool) -> (r: Vec<Ecosystem>)
    ensures
        r@ == among(list@, other@, wanted),
{
    let mut out: Vec<Ecosystem> = Vec::new();
    let mut i: usize = 0;
    while i < list.len()
        invariant
            i <= list@.len(),
            out@ == among(list@.take(i as int), other@, wanted),
        decreases list@.len() - i,
    {
        proof {
            assert(list@.take(i + 1).drop_last() =~= list@.take(i as int));
        }
        if has(other, list[i]) == wanted {
            out.push(list[i]);
        }
        i += 1;
    }
    proof {
        assert(list@.take(i as int) =~= list@);
    }
    out
}

/// What a scan does.
pub fn plan(ecosystems: &Vec<Ecosystem>, present: &Vec<Ecosystem>, config: &Config) -> (r: Plan)
    ensures
        r.deep_view() == plan_of(
            ecosystems@,
            present@,
            config.online.enabled,
            config.offline,
        ),
{
    let ready = pick(ecosystems, present, true);
    let missing = pick(ecosystems, present, false);
    if ecosystems.len() == 0 {
        Plan::Nothing
    } else if missing.len() == 0 {
        Plan::Archives { refresh: !config.offline }
    } else if ready.len() > 0 {
        Plan::Partly { ready, missing, fetch: !config.offline }
    } else if config.online.enabled && !config.offline {
        Plan::Online
    } else if !config.offline {
        Plan::Download
    } else {
        Plan::Refuse
    }
}

/// Whether a plan may touch the network.
pub open spec fn touches_network(p: PlanView) -> bool {
    match p {
        PlanView::Nothing => false,
        PlanView::Archives { refresh } => refresh,
        PlanView::Partly { fetch, .. } => fetch,
        PlanView::Online => true,
        PlanView::Download => true,
        PlanView::Refuse => false,
    }
}

/// Offline means offline: nothing is asked and nothing is downloaded, whatever
/// is on disk. And where asking is turned off, nothing is asked.
pub proof fn offline_touches_no_network(
    ecosystems: Seq<Ecosystem>,
    present: Seq<Ecosystem>,
    enabled: bool,
    offline: bool,
)
    ensures
        !touches_network(plan_of(ecosystems, present, enabled, true)),
        !(plan_of(ecosystems, present, false, offline) is Online),
{
}

proof fn lemma_among(list: Seq<Ecosystem>, other: Seq<Ecosystem>)
    ensures
        among(list, other, true).len() + among(list, other, false).len() == list.len(),
        forall|i: int|
            0 <= i < among(list, other, true).len() ==> other.contains(
                #[trigger] among(list, other, true)[i],
            ),
        forall|i: int|
            0 <= i < among(list, other, false).len() ==> !other.contains(
                #[trigger] among(list, other, false)[i],
            ),
    decreases list.len(),
{
    if list.len() > 0 {
        let front = list.drop_last();
        lemma_among(front, other);
        let a = among(front, other, true);
        let b = among(front, other, false);
        let x = among(list, other, true);
        let y = among(list, other, false);
        assert forall|i: int| 0 <= i < x.len() implies other.contains(#[trigger] x[i]) by {
            if i < a.len() {
                assert(x[i] == a[i]);
            }
        }
        assert forall|i: int| 0 <= i < y.len() implies !other.contains(#[trigger] y[i]) by {
            if i < b.len() {
                assert(y[i] == b[i]);
            }
        }
    }
}

/// A partial scan says which ecosystems it did not check: every ecosystem in
/// use is either ready or named as missing, and none is both.
pub proof fn a_partial_scan_names_what_is_missing(
    ecosystems: Seq<Ecosystem>,
    present: Seq<Ecosystem>,
    enabled: bool,
    offline: bool,
)
    ensures
        plan_of(ecosystems, present, enabled, offline) matches PlanView::Partly { ready, missing, .. }
            ==> ready.len() + missing.len() == ecosystems.len() && (forall|i: int|
            0 <= i < ready.len() ==> present.contains(#[trigger] ready[i])) && (forall|i: int|
            0 <= i < missing.len() ==> !present.contains(#[trigger] missing[i])),
{
    lemma_among(ecosystems, present);
}

// ---- reports ----

/// The packages of some ecosystems.
pub open spec fn checkable_of(packages: Seq<ExtractedView>, ready: Seq<Ecosystem>) -> Seq<
    ExtractedView,
>
    decreases packages.len(),
{
    if packages.len() == 0 {
        seq![]
    } else if ready.contains(packages.last().package.key.ecosystem) {
        checkable_of(packages.drop_last(), ready).push(packages.last())
    } else {
        checkable_of(packages.drop_last(), ready)
    }
}

/// The packages of some ecosystems.
pub fn checkable(packages: &Vec<ExtractedPackage>, ready: &Vec<Ecosystem>) -> (r: Vec<
    ExtractedPackage,
>)
    ensures
        r.deep_view() == checkable_of(packages.deep_view(), ready@),
{
    let ghost all = packages.deep_view();
    let mut out: Vec<ExtractedPackage> = Vec::new();
    let mut i: usize = 0;
    proof {
        assert(out.deep_view() =~= seq![]);
    }
    while i < packages.len()
        invariant
            i <= packages@.len(),
            all == packages.deep_view(),
            out.deep_view() == checkable_of(all.take(i as int), ready@),
        decreases packages@.len() - i,
    {
        let ghost before = out.deep_view();
        proof {
            assert(all.take(i + 1).drop_last() =~= all.take(i as int));
            assert(all.take(i + 1).last() == packages@[i as int].deep_view());
        }
        if has(ready, packages[i].package.ecosystem()) {
            let copy = packages[i].copy();
            out.push(copy);
            proof {
                assert(out.deep_view() =~= before.push(copy.deep_view()));
            }
        }
        i += 1;
    }
    proof {
        assert(all.take(i as int) =~= all);
    }
    out
}

/// A report against archives that cover everything in use.
pub fn archive_report(root: &str, index: &Index, packages: &Vec<ExtractedPackage>) -> (r: Report)
    requires
        index.wf(),
    ensures
        r.deep_view() == (ReportView {
            root: root@,
            findings: findings_of(index.all(), packages.deep_view()),
            source: SourceView::Archive,
        }),
{
    proof {
        assert(extracted_views(packages@) =~= packages.deep_view());
    }
    Report::new(root, Matcher::new(index).findings(packages.as_slice()))
}

/// A report against the archives that are there.
pub fn partial_report(
    root: &str,
    index: &Index,
    packages: &Vec<ExtractedPackage>,
    ready: &Vec<Ecosystem>,
    missing: Vec<Ecosystem>,
) -> (r: Report)
    requires
        index.wf(),
    ensures
        r.deep_view() == (ReportView {
            root: root@,
            findings: findings_of(index.all(), checkable_of(packages.deep_view(), ready@)),
            source: SourceView::PartialArchive { missing: missing@ },
        }),
{
    let these = checkable(packages, ready);
    archive_report(root, index, &these).missing(missing)
}

/// A finding whose fix may not be claimed, where its package is one of those
/// whose advisory set is incomplete.
pub open spec fn withheld(f: FindingView, partial: Seq<KeyView>) -> FindingView {
    if partial.contains(f.package.key) {
        FindingView { fix: FixView::Absent, ..f }
    } else {
        f
    }
}

pub open spec fn all_withheld(findings: Seq<FindingView>, partial: Seq<KeyView>) -> Seq<
    FindingView,
> {
    Seq::new(findings.len(), |i: int| withheld(findings[i], partial))
}

fn has_key(list: &Vec<PackageKey>, key: &PackageKey) -> (r: bool)
    ensures
        r == list.deep_view().contains(key.deep_view()),
{
    let mut i: usize = 0;
    while i < list.len()
        invariant
            i <= list@.len(),
            forall|j: int| 0 <= j < i ==> #[trigger] list.deep_view()[j] != key.deep_view(),
        decreases list@.len() - i,
    {
        if list[i].equals(key) {
            proof {
                assert(list.deep_view()[i as int] == key.deep_view());
            }
            return true;
        }
        i += 1;
    }
    false
}

/// A report against advisories fetched for these packages specifically.
///
/// The index is complete for every package that has a finding, which is what
/// verifying a candidate upgrade needs. Where that could not be established
/// for a package, the fix is withheld rather than guessed.
pub fn online_report(
    root: &str,
    index: &Index,
    packages: &Vec<ExtractedPackage>,
    partial: &Vec<PackageKey>,
) -> (r: Report)
    requires
        index.wf(),
    ensures
        r.deep_view() == (ReportView {
            root: root@,
            findings: all_withheld(
                findings_of(index.all(), packages.deep_view()),
                partial.deep_view(),
            ),
            source: SourceView::Api { checked: packages@.len() },
        }),
{
    proof {
        assert(extracted_views(packages@) =~= packages.deep_view());
    }
    let found = Matcher::new(index).findings(packages.as_slice());
    let ghost all = found.deep_view();
    let ghost want = all_withheld(all, partial.deep_view());
    let mut findings: Vec<Finding> = Vec::new();
    let mut i: usize = 0;
    while i < found.len()
        invariant
            i <= found@.len(),
            all == found.deep_view(),
            want == all_withheld(all, partial.deep_view()),
            findings@.len() == i,
            forall|k: int| 0 <= k < i ==> (#[trigger] findings@[k]).deep_view() == want[k],
        decreases found@.len() - i,
    {
        let mut f = found[i].copy();
        proof {
            assert(all[i as int] == found@[i as int].deep_view());
        }
        if has_key(partial, &f.package.key) {
            f.fix = Fix::Absent;
        }
        findings.push(f);
        i += 1;
    }
    proof {
        assert(findings.deep_view() =~= want);
    }
    Report::new(root, findings).from_api(packages.len())
}

/// No fix is claimed for a package whose advisory set is incomplete, and the
/// finding itself is reported all the same.
pub proof fn an_incomplete_set_claims_no_fix(
    findings: Seq<FindingView>,
    partial: Seq<KeyView>,
    i: int,
)
    requires
        0 <= i < findings.len(),
    ensures
        all_withheld(findings, partial).len() == findings.len(),
        all_withheld(findings, partial)[i].package == findings[i].package,
        all_withheld(findings, partial)[i].advisories == findings[i].advisories,
        partial.contains(findings[i].package.key) ==> all_withheld(findings, partial)[i].fix
            == FixView::Absent,
        !partial.contains(findings[i].package.key) ==> all_withheld(findings, partial)[i]
            == findings[i],
{
}

/// What a scan gives that asked about the packages in hand, and whether the
/// archives are to be downloaded. Where asking failed, they are fallen back on:
/// the scan gives no report, which is not the same as an empty one.
pub fn after_online(asked: Result<Report, ScanError>) -> (r: (Result<Report, ScanError>, bool))
    ensures
        match asked {
            Ok(report) => r.0 == Ok::<Report, ScanError>(report) && !r.1,
            Err(_) => r.0 == Err::<Report, ScanError>(ScanError::NotReady) && r.1,
        },
{
    match asked {
        Ok(report) => (Ok(report), false),
        Err(_) => (Err(ScanError::NotReady), true),
    }
}

// ---- background work ----

/// Whether the database is offered a chance to revalidate, given how many
/// seconds ago it last was.
pub fn refresh_due(since: Option<u64>) -> (r: bool)
    ensures
        r == (since is None || since->Some_0 >= REFRESH_CHECK_EVERY),
{
    match since {
        Some(s) => s >= REFRESH_CHECK_EVERY,
        None => true,
    }
}

/// Whether a download runs, and whether any still may.
#[derive(Clone, Copy, PartialEq, Eq, Debug, Structural)]
pub struct Warming {
    pub running: bool,
    pub stopped: bool,
}

impl Warming {
    pub fn new() -> (r: Warming)
        ensures
            r == (Warming { running: false, stopped: false }),
    {
        Warming { running: false, stopped: false }
    }

    /// Claims the one download that may run. False where one runs already, and
    /// after a shutdown: a project with a missing database fails every scan it
    /// is asked for, and each of those must not start its own download.
    pub fn begin(&mut self) -> (r: bool)
        ensures
            r == (!old(self).running && !old(self).stopped),
            final(self).stopped == old(self).stopped,
            final(self).running == (old(self).running || r),
    {
        if self.stopped || self.running {
            false
        } else {
            self.running = true;
            true
        }
    }

    /// Whether an archive that was just checked is news: the index is dropped
    /// and a scan asked for. An archive is only ever replaced whole, so a new
    /// modification time is the whole signal.
    pub fn is_news(&self, before: Option<u64>, after: Option<u64>) -> (r: bool)
        ensures
            r == (!self.stopped && before != after),
    {
        !self.stopped && match (before, after) {
            (Some(a), Some(b)) => a != b,
            (None, None) => false,
            _ => true,
        }
    }

    /// The download has ended, well or badly: a failed one is tried again on
    /// the next scan.
    pub fn end(&mut self)
        ensures
            final(self).running == false,
            final(self).stopped == old(self).stopped,
    {
        self.running = false;
    }

    /// No download starts from now on, and none that ends asks for a scan.
    pub fn stop(&mut self)
        ensures
            final(self).stopped,
            final(self).running == old(self).running,
    {
        self.stopped = true;
    }
}

} // verus!
