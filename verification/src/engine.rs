//! Deciding *when* to scan, and what to publish.
//!
//! One owner holds every piece of mutable state; everything else sends it
//! events and carries out what it answers. A newer request supersedes the scan
//! that is running, so nothing in the scan path polls for cancellation.
use crate::model::{
    copy_findings, ecosystem_name, grouped, Ecosystem, FileFindings, FileView, Finding,
    FindingView, Report, ReportView, Source, SourceView,
};
use crate::path::{normal, normal_of};
use crate::text::{decimal, join_texts, joined_with, number, same};
use vstd::prelude::*;

verus! {

/// How long requests are gathered before a scan, in milliseconds. Long enough
/// that a `git checkout` touching forty files causes one scan.
pub const DEFAULT_DEBOUNCE: u64 = 1000;

/// Why a scan was asked for. Reported in logs; it never changes what is done.
#[derive(Clone, Copy, PartialEq, Eq, Debug, Structural)]
pub enum Reason {
    /// The server just initialised.
    Startup,
    /// A watched manifest or lockfile changed.
    FileChanged,
    /// The editor saved a manifest.
    FileSaved,
    /// The advisory database landed or changed.
    DatabaseSync,
    /// Configuration changed, or a rescan was asked for.
    Manual,
}

impl Reason {
    /// The reason as it appears in logs.
    pub fn as_str(self) -> (r: &'static str)
        ensures
            r@ == (match self {
                Reason::Startup => "startup"@,
                Reason::FileChanged => "file changed"@,
                Reason::FileSaved => "file saved"@,
                Reason::DatabaseSync => "database updated"@,
                Reason::Manual => "requested"@,
            }),
    {
        match self {
            Reason::Startup => "startup",
            Reason::FileChanged => "file changed",
            Reason::FileSaved => "file saved",
            Reason::DatabaseSync => "database updated",
            Reason::Manual => "requested",
        }
    }
}

/// Sends diagnostics to the client.
pub trait Publisher: Send + Sync {
    /// Replaces a file's diagnostics; an empty set clears them.
    fn publish(&self, path: String, findings: Vec<Finding>);

    /// Something the user should know that is not a diagnostic. Called rarely
    /// and at most once per condition.
    fn notice(&self, message: String) {
    }
}

/// Something that happened.
#[derive(Clone, Debug)]
pub enum Event {
    /// A scan was asked for.
    Requested(Reason),
    /// A manifest was deleted.
    Cleared(String),
    /// No request came for as long as requests are gathered.
    Elapsed,
    /// The scan of this number gave a report.
    Reported(u64, Report),
    /// The scan of this number failed, for this reason.
    Failed(u64, String),
    /// The scan of this number gave nothing at all.
    Lost(u64),
}

/// What an [`Event`] says.
pub enum EventView {
    Requested(Reason),
    Cleared(Seq<char>),
    Elapsed,
    Reported(u64, ReportView),
    Failed(u64, Seq<char>),
    Lost(u64),
}

impl DeepView for Event {
    type V = EventView;

    open spec fn deep_view(&self) -> EventView {
        match self {
            Event::Requested(r) => EventView::Requested(*r),
            Event::Cleared(p) => EventView::Cleared(p@),
            Event::Elapsed => EventView::Elapsed,
            Event::Reported(scan, r) => EventView::Reported(*scan, r.deep_view()),
            Event::Failed(scan, e) => EventView::Failed(*scan, e@),
            Event::Lost(scan) => EventView::Lost(*scan),
        }
    }
}

/// Something to do.
#[derive(Clone, Debug)]
pub enum Effect {
    /// Abandon the scan that is running.
    Abort,
    /// Wait for requests to stop coming, from now.
    Wait,
    /// Start the scan of this number.
    Scan(u64),
    /// Replace a file's diagnostics.
    Publish(FileFindings),
    /// Tell the user.
    Notice(String),
}

/// What an [`Effect`] says.
pub enum EffectView {
    Abort,
    Wait,
    Scan(u64),
    Publish(FileView),
    Notice(Seq<char>),
}

impl DeepView for Effect {
    type V = EffectView;

    open spec fn deep_view(&self) -> EffectView {
        match self {
            Effect::Abort => EffectView::Abort,
            Effect::Wait => EffectView::Wait,
            Effect::Scan(scan) => EffectView::Scan(*scan),
            Effect::Publish(f) => EffectView::Publish(f.deep_view()),
            Effect::Notice(m) => EffectView::Notice(m@),
        }
    }
}

/// What the engine knows.
pub struct Engine {
    /// What is shown, by file: no file stands here twice.
    pub shown: Vec<FileFindings>,
    /// Whether requests are being gathered.
    pub waiting: bool,
    /// The number of the scan that is running.
    pub running: Option<u64>,
    /// The number of the last scan that was started. None is used twice, so
    /// that an engine that has used them all starts no further scan.
    pub started: u64,
    /// Whether it was said that something left the machine.
    pub announced: bool,
    /// Whether it was said that scans give nothing.
    pub pending: bool,
    /// Whether it was said that ecosystems were not checked.
    pub announced_partial: bool,
}

/// What an [`Engine`] knows.
pub struct EngineView {
    pub shown: Seq<FileView>,
    pub waiting: bool,
    pub running: Option<u64>,
    pub started: u64,
    pub announced: bool,
    pub pending: bool,
    pub announced_partial: bool,
}

impl DeepView for Engine {
    type V = EngineView;

    open spec fn deep_view(&self) -> EngineView {
        EngineView {
            shown: self.shown.deep_view(),
            waiting: self.waiting,
            running: self.running,
            started: self.started,
            announced: self.announced,
            pending: self.pending,
            announced_partial: self.announced_partial,
        }
    }
}

// ---- what is shown ----

/// The files that are shown.
pub open spec fn shown_paths(shown: Seq<FileView>) -> Seq<Seq<char>> {
    Seq::new(shown.len(), |i: int| shown[i].path)
}

/// What is shown, without a file.
pub open spec fn without(shown: Seq<FileView>, path: Seq<char>) -> Seq<FileView>
    decreases shown.len(),
{
    if shown.len() == 0 {
        seq![]
    } else if shown.last().path == path {
        without(shown.drop_last(), path)
    } else {
        without(shown.drop_last(), path).push(shown.last())
    }
}

/// What is shown in a file.
pub open spec fn shown_in(shown: Seq<FileView>, path: Seq<char>) -> Seq<FindingView>
    decreases shown.len(),
{
    if shown.len() == 0 {
        seq![]
    } else if shown[0].path == path {
        shown[0].findings
    } else {
        shown_in(shown.skip(1), path)
    }
}

/// Clearing a file.
pub open spec fn cleared(path: Seq<char>) -> EffectView {
    EffectView::Publish(FileView { path, findings: seq![] })
}

/// Clearing the files that were shown and are not any more.
pub open spec fn clearings(before: Seq<FileView>, now: Seq<FileView>) -> Seq<EffectView>
    decreases before.len(),
{
    if before.len() == 0 {
        seq![]
    } else if shown_paths(now).contains(before.last().path) {
        clearings(before.drop_last(), now)
    } else {
        clearings(before.drop_last(), now).push(cleared(before.last().path))
    }
}

pub open spec fn publications(now: Seq<FileView>) -> Seq<EffectView> {
    Seq::new(now.len(), |i: int| EffectView::Publish(now[i]))
}

// ---- notices ----

/// Said once, the first time something leaves the machine.
pub open spec fn api_notice(checked: nat) -> Seq<char> {
    "Checked "@ + decimal(checked) + " "@ + (if checked == 1 { "dependency"@ } else {
        "dependencies"@
    })
        + " against osv.dev — names and versions only. Set online.enabled to false to use the offline database instead."@
}

pub open spec fn names_of(ecosystems: Seq<Ecosystem>) -> Seq<Seq<char>> {
    Seq::new(ecosystems.len(), |i: int| ecosystem_name(ecosystems[i]))
}

/// An unchecked ecosystem produces a report that looks exactly like a clean
/// one.
pub open spec fn partial_notice(missing: Seq<Ecosystem>) -> Seq<char> {
    "Not checked yet: "@ + joined_with(names_of(missing), ", "@)
        + ". Still downloading those advisories."@
}

pub open spec fn failure_notice(error: Seq<char>) -> Seq<char> {
    "Dependencies not checked yet: "@ + error
}

/// What is said of where a report comes from, if it was not said before.
pub open spec fn source_notices(s: EngineView, source: SourceView) -> Seq<EffectView> {
    match source {
        SourceView::Api { checked } => if s.announced {
            seq![]
        } else {
            seq![EffectView::Notice(api_notice(checked))]
        },
        SourceView::PartialArchive { missing } => if s.announced_partial {
            seq![]
        } else {
            seq![EffectView::Notice(partial_notice(missing))]
        },
        SourceView::Archive => seq![],
    }
}

// ---- one step ----

/// What follows from an event: what is known then, and what to do. What a scan
/// says that is not the one running counts for nothing.
pub open spec fn step_of(s: EngineView, event: EventView) -> (EngineView, Seq<EffectView>) {
    match event {
        // A newer request supersedes whatever is running: its results describe
        // a tree that no longer exists.
        EventView::Requested(_) => (
            EngineView { waiting: true, running: None, ..s },
            if s.running is Some {
                seq![EffectView::Abort, EffectView::Wait]
            } else {
                seq![EffectView::Wait]
            },
        ),
        EventView::Cleared(path) => (
            EngineView { shown: without(s.shown, normal_of(path)), ..s },
            if shown_paths(s.shown).contains(normal_of(path)) {
                seq![cleared(normal_of(path))]
            } else {
                seq![]
            },
        ),
        EventView::Elapsed => if s.started == u64::MAX {
            (EngineView { waiting: false, running: None, ..s }, seq![])
        } else {
            let scan = (s.started + 1) as u64;
            (
                EngineView { waiting: false, running: Some(scan), started: scan, ..s },
                seq![EffectView::Scan(scan)],
            )
        },
        EventView::Reported(scan, report) => if s.running != Some(scan) {
            (s, seq![])
        } else {
            (
                EngineView {
                    shown: grouped(report.findings),
                    running: None,
                    pending: false,
                    announced: s.announced || report.source is Api,
                    announced_partial: s.announced_partial || report.source is PartialArchive,
                    ..s
                },
                // Clearing comes first, so that a file that moved from
                // "vulnerable" to "clean" never keeps a stale mark.
                source_notices(s, report.source) + clearings(s.shown, grouped(report.findings))
                    + publications(grouped(report.findings)),
            )
        },
        // "Still downloading" and "nothing is wrong" must not look alike.
        // Announced once per streak.
        EventView::Failed(scan, error) => if s.running != Some(scan) {
            (s, seq![])
        } else {
            (
                EngineView { running: None, pending: true, ..s },
                if s.pending {
                    seq![]
                } else {
                    seq![EffectView::Notice(failure_notice(error))]
                },
            )
        },
        EventView::Lost(scan) => if s.running != Some(scan) {
            (s, seq![])
        } else {
            (EngineView { running: None, ..s }, seq![])
        },
    }
}

// ---- code ----

fn push_effect(out: &mut Vec<Effect>, e: Effect)
    ensures
        final(out).deep_view() == old(out).deep_view().push(e.deep_view()),
{
    let ghost before = out.deep_view();
    out.push(e);
    proof {
        assert(out.deep_view() =~= before.push(e.deep_view()));
    }
}

fn is_shown(shown: &Vec<FileFindings>, path: &str) -> (r: bool)
    ensures
        r == shown_paths(shown.deep_view()).contains(path@),
{
    let mut i: usize = 0;
    while i < shown.len()
        invariant
            i <= shown@.len(),
            forall|j: int| 0 <= j < i ==> #[trigger] shown_paths(shown.deep_view())[j] != path@,
        decreases shown@.len() - i,
    {
        if same(shown[i].path.as_str(), path) {
            proof {
                assert(shown_paths(shown.deep_view())[i as int] == path@);
            }
            return true;
        }
        i += 1;
    }
    false
}

fn copy_file(f: &FileFindings) -> (r: FileFindings)
    ensures
        r.deep_view() == f.deep_view(),
{
    FileFindings { path: f.path.clone(), findings: copy_findings(&f.findings) }
}

fn remove_file(shown: &Vec<FileFindings>, path: &str) -> (r: Vec<FileFindings>)
    ensures
        r.deep_view() == without(shown.deep_view(), path@),
{
    let ghost all = shown.deep_view();
    let mut out: Vec<FileFindings> = Vec::new();
    let mut i: usize = 0;
    proof {
        assert(out.deep_view() =~= seq![]);
    }
    while i < shown.len()
        invariant
            i <= shown@.len(),
            all == shown.deep_view(),
            out.deep_view() == without(all.take(i as int), path@),
        decreases shown@.len() - i,
    {
        let ghost before = out.deep_view();
        proof {
            assert(all.take(i + 1).drop_last() =~= all.take(i as int));
            assert(all.take(i + 1).last() == shown@[i as int].deep_view());
        }
        if !same(shown[i].path.as_str(), path) {
            let f = copy_file(&shown[i]);
            out.push(f);
            proof {
                assert(out.deep_view() =~= before.push(f.deep_view()));
            }
        }
        i += 1;
    }
    proof {
        assert(all.take(i as int) =~= all);
    }
    out
}

fn clear_effect(path: &str) -> (r: Effect)
    ensures
        r.deep_view() == cleared(path@),
{
    let none: Vec<Finding> = Vec::new();
    proof {
        assert(none.deep_view() =~= seq![]);
    }
    Effect::Publish(FileFindings { path: path.to_owned(), findings: none })
}

fn add_clearings(out: &mut Vec<Effect>, before: &Vec<FileFindings>, now: &Vec<FileFindings>)
    ensures
        final(out).deep_view() == old(out).deep_view() + clearings(
            before.deep_view(),
            now.deep_view(),
        ),
{
    let ghost start = out.deep_view();
    let ghost all = before.deep_view();
    let ghost fresh = now.deep_view();
    let mut i: usize = 0;
    proof {
        assert(start + clearings(all.take(0), fresh) =~= start);
    }
    while i < before.len()
        invariant
            i <= before@.len(),
            all == before.deep_view(),
            fresh == now.deep_view(),
            out.deep_view() == start + clearings(all.take(i as int), fresh),
        decreases before@.len() - i,
    {
        let path = before[i].path.as_str();
        proof {
            assert(all.take(i + 1).drop_last() =~= all.take(i as int));
            assert(all.take(i + 1).last().path == path@);
        }
        let ghost so_far = out.deep_view();
        if !is_shown(now, path) {
            push_effect(out, clear_effect(path));
            proof {
                assert(so_far.push(cleared(path@)) =~= start + clearings(
                    all.take(i as int),
                    fresh,
                ).push(cleared(path@)));
            }
        }
        i += 1;
    }
    proof {
        assert(all.take(i as int) =~= all);
    }
}

fn add_publications(out: &mut Vec<Effect>, now: &Vec<FileFindings>)
    ensures
        final(out).deep_view() == old(out).deep_view() + publications(now.deep_view()),
{
    let ghost start = out.deep_view();
    let ghost all = now.deep_view();
    let mut i: usize = 0;
    proof {
        assert(start + publications(all.take(0)) =~= start);
    }
    while i < now.len()
        invariant
            i <= now@.len(),
            all == now.deep_view(),
            out.deep_view() == start + publications(all.take(i as int)),
        decreases now@.len() - i,
    {
        let ghost so_far = out.deep_view();
        push_effect(out, Effect::Publish(copy_file(&now[i])));
        proof {
            assert(publications(all.take(i + 1)) =~= publications(all.take(i as int)).push(
                EffectView::Publish(all[i as int]),
            ));
            assert(out.deep_view() =~= start + publications(all.take(i + 1)));
        }
        i += 1;
    }
    proof {
        assert(all.take(i as int) =~= all);
    }
}

fn names(ecosystems: &Vec<Ecosystem>) -> (r: Vec<String>)
    ensures
        r.deep_view() == names_of(ecosystems@),
{
    let mut out: Vec<String> = Vec::new();
    let mut i: usize = 0;
    while i < ecosystems.len()
        invariant
            i <= ecosystems@.len(),
            out@.len() == i,
            forall|j: int| 0 <= j < i ==> (#[trigger] out@[j])@ == ecosystem_name(ecosystems@[j]),
        decreases ecosystems@.len() - i,
    {
        out.push(ecosystems[i].as_str().to_owned());
        i += 1;
    }
    proof {
        assert(out.deep_view() =~= names_of(ecosystems@));
    }
    out
}

impl Engine {
    /// An engine that shows nothing.
    pub fn new() -> (r: Engine)
        ensures
            r.deep_view() == fresh_engine(),
    {
        let r = Engine {
            shown: Vec::new(),
            waiting: false,
            running: None,
            started: 0,
            announced: false,
            pending: false,
            announced_partial: false,
        };
        proof {
            assert(r.shown.deep_view() =~= seq![]);
        }
        r
    }

    /// The findings already known for a file, for publishing again when it is
    /// opened.
    pub fn findings(&self, path: &str) -> (r: Vec<Finding>)
        ensures
            r.deep_view() == shown_in(self.deep_view().shown, normal_of(path@)),
    {
        let key = normal(path);
        let ghost all = self.shown.deep_view();
        let mut i: usize = 0;
        proof {
            assert(all.skip(0) =~= all);
        }
        while i < self.shown.len()
            invariant
                i <= self.shown@.len(),
                all == self.shown.deep_view(),
                key@ == normal_of(path@),
                shown_in(all, key@) == shown_in(all.skip(i as int), key@),
            decreases self.shown@.len() - i,
        {
            proof {
                assert(all.skip(i as int)[0] == self.shown@[i as int].deep_view());
                assert(all.skip(i as int).skip(1) =~= all.skip(i + 1));
            }
            if same(self.shown[i].path.as_str(), key.as_str()) {
                return copy_findings(&self.shown[i].findings);
            }
            i += 1;
        }
        let none: Vec<Finding> = Vec::new();
        proof {
            assert(none.deep_view() =~= seq![]);
        }
        none
    }

    fn announce(&self, source: &Source, out: &mut Vec<Effect>)
        ensures
            final(out).deep_view() == old(out).deep_view() + source_notices(
                self.deep_view(),
                source.deep_view(),
            ),
    {
        let ghost start = out.deep_view();
        proof {
            assert(start + seq![] =~= start);
        }
        match source {
            Source::Api { checked } => {
                if !self.announced {
                    let noun = if *checked == 1 { "dependency" } else { "dependencies" };
                    let text = "Checked ".to_owned().concat(
                        number(*checked as u64).as_str(),
                    ).concat(" ").concat(noun).concat(
                        " against osv.dev — names and versions only. Set online.enabled to false to use the offline database instead.",
                    );
                    let ghost said = text@;
                    push_effect(out, Effect::Notice(text));
                    proof {
                        assert(out.deep_view() =~= start + seq![EffectView::Notice(said)]);
                    }
                }
            },
            Source::PartialArchive { missing } => {
                if !self.announced_partial {
                    let list = names(missing);
                    let text = "Not checked yet: ".to_owned().concat(
                        join_texts(&list, ", ").as_str(),
                    ).concat(". Still downloading those advisories.");
                    let ghost said = text@;
                    push_effect(out, Effect::Notice(text));
                    proof {
                        assert(out.deep_view() =~= start + seq![EffectView::Notice(said)]);
                    }
                }
            },
            Source::Archive => {},
        }
    }

    fn is_running(&self, scan: u64) -> (r: bool)
        ensures
            r == (self.running == Some(scan)),
    {
        match self.running {
            Some(running) => running == scan,
            None => false,
        }
    }

    /// Takes in an event, and answers what to do.
    pub fn step(&mut self, event: Event) -> (r: Vec<Effect>)
        ensures
            (final(self).deep_view(), r.deep_view()) == step_of(
                old(self).deep_view(),
                event.deep_view(),
            ),
    {
        let ghost before = self.deep_view();
        let mut out: Vec<Effect> = Vec::new();
        proof {
            assert(out.deep_view() =~= seq![]);
        }
        match event {
            Event::Requested(_) => {
                if self.running.is_some() {
                    push_effect(&mut out, Effect::Abort);
                }
                push_effect(&mut out, Effect::Wait);
                self.running = None;
                self.waiting = true;
            },
            Event::Cleared(path) => {
                let path = normal(path.as_str());
                if is_shown(&self.shown, path.as_str()) {
                    push_effect(&mut out, clear_effect(path.as_str()));
                }
                self.shown = remove_file(&self.shown, path.as_str());
            },
            Event::Elapsed => {
                self.waiting = false;
                self.running = None;
                if self.started < u64::MAX {
                    let scan: u64 = self.started + 1;
                    self.started = scan;
                    self.running = Some(scan);
                    push_effect(&mut out, Effect::Scan(scan));
                }
            },
            Event::Reported(scan, report) => {
                if !self.is_running(scan) {
                    return out;
                }
                self.announce(&report.source, &mut out);
                match &report.source {
                    Source::Api { .. } => {
                        self.announced = true;
                    },
                    Source::PartialArchive { .. } => {
                        self.announced_partial = true;
                    },
                    Source::Archive => {},
                }
                let fresh = report.by_file();
                add_clearings(&mut out, &self.shown, &fresh);
                add_publications(&mut out, &fresh);
                proof {
                    let r = report.deep_view();
                    assert(seq![] + source_notices(before, r.source) =~= source_notices(
                        before,
                        r.source,
                    ));
                }
                self.shown = fresh;
                self.running = None;
                self.pending = false;
            },
            Event::Failed(scan, error) => {
                if !self.is_running(scan) {
                    return out;
                }
                if !self.pending {
                    push_effect(
                        &mut out,
                        Effect::Notice(
                            "Dependencies not checked yet: ".to_owned().concat(error.as_str()),
                        ),
                    );
                }
                self.running = None;
                self.pending = true;
            },
            Event::Lost(scan) => {
                if self.is_running(scan) {
                    self.running = None;
                }
            },
        }
        proof {
            assert(out.deep_view() =~= step_of(before, event.deep_view()).1);
        }
        out
    }
}

// ---- laws ----

/// A file that was shown and is not in a new report is cleared, before
/// anything of the report is published.
pub proof fn a_stale_file_is_cleared_first(
    s: EngineView,
    scan: u64,
    report: ReportView,
    i: int,
) -> (k: int)
    requires
        s.running == Some(scan),
        0 <= i < s.shown.len(),
        !shown_paths(grouped(report.findings)).contains(s.shown[i].path),
    ensures
        ({
            let (_, effects) = step_of(s, EventView::Reported(scan, report));
            let first = effects.len() - grouped(report.findings).len();
            &&& 0 <= k < first
            &&& effects[k] == cleared(s.shown[i].path)
            &&& forall|j: int|
                first <= j < effects.len() ==> #[trigger] effects[j] == EffectView::Publish(
                    grouped(report.findings)[j - first],
                )
        }),
{
    let now = grouped(report.findings);
    let notices = source_notices(s, report.source);
    let clears = clearings(s.shown, now);
    lemma_clearings(s.shown, now, i);
    let c = choose|c: int| 0 <= c < clears.len() && clears[c] == cleared(s.shown[i].path);
    let (_, effects) = step_of(s, EventView::Reported(scan, report));
    let first = effects.len() - now.len();
    assert(effects[notices.len() + c] == clears[c]);
    assert forall|j: int| first <= j < effects.len() implies #[trigger] effects[j]
        == EffectView::Publish(now[j - first]) by {
        assert(effects[j] == publications(now)[j - first]);
    }
    notices.len() + c
}

proof fn lemma_clearings(before: Seq<FileView>, now: Seq<FileView>, i: int)
    requires
        0 <= i < before.len(),
        !shown_paths(now).contains(before[i].path),
    ensures
        clearings(before, now).contains(cleared(before[i].path)),
    decreases before.len(),
{
    let front = before.drop_last();
    let out = clearings(before, now);
    if i < front.len() {
        lemma_clearings(front, now, i);
        assert(front[i] == before[i]);
        let c = clearings(front, now);
        let k = choose|k: int| 0 <= k < c.len() && c[k] == cleared(before[i].path);
        assert(out[k] == cleared(before[i].path));
    } else {
        assert(out[out.len() - 1] == cleared(before[i].path));
    }
}

/// A scan that fails leaves what is shown as it is: it does not look like a
/// clean report.
pub proof fn a_failed_scan_changes_nothing_shown(s: EngineView, scan: u64, error: Seq<char>)
    ensures
        step_of(s, EventView::Failed(scan, error)).0.shown == s.shown,
        !publishes(step_of(s, EventView::Failed(scan, error)).1),
        step_of(s, EventView::Lost(scan)).0.shown == s.shown,
        !publishes(step_of(s, EventView::Lost(scan)).1),
{
}

/// Whether some effect replaces what is shown in a file.
pub open spec fn publishes(effects: Seq<EffectView>) -> bool {
    exists|i: int| 0 <= i < effects.len() && (#[trigger] effects[i]) is Publish
}

/// A streak of failures is announced once: the next scan that fails says
/// nothing, and after one that reports the next failure speaks again.
pub proof fn a_streak_of_failures_is_announced_once(
    s: EngineView,
    scan: u64,
    first: Seq<char>,
    reason: Reason,
    second: Seq<char>,
    report: ReportView,
)
    requires
        !s.pending,
        s.running == Some(scan),
        s.started < u64::MAX,
    ensures
        ({
            let failed = step_of(s, EventView::Failed(scan, first));
            let t = run_of(failed.0, seq![EventView::Requested(reason), EventView::Elapsed]);
            let next = (s.started + 1) as u64;
            &&& failed.1 == seq![EffectView::Notice(failure_notice(first))]
            &&& t.running == Some(next)
            &&& step_of(t, EventView::Failed(next, second)).1.len() == 0
            &&& !step_of(t, EventView::Reported(next, report)).0.pending
        }),
{
    let failed = step_of(s, EventView::Failed(scan, first)).0;
    let events = seq![EventView::Requested(reason), EventView::Elapsed];
    assert(events.drop_last() =~= seq![EventView::Requested(reason)]);
    assert(events.drop_last().drop_last() =~= seq![]);
    assert(run_of(failed, events.drop_last().drop_last()) == failed);
    assert(run_of(failed, events.drop_last()) == step_of(failed, EventView::Requested(reason)).0);
}

/// That something left the machine is said once, and so is that ecosystems
/// were not checked.
pub proof fn a_source_is_announced_once(
    s: EngineView,
    scan: u64,
    report: ReportView,
    again: ReportView,
)
    requires
        s.running == Some(scan),
        report.source is Api <==> again.source is Api,
        report.source is PartialArchive <==> again.source is PartialArchive,
    ensures
        source_notices(step_of(s, EventView::Reported(scan, report)).0, again.source).len() == 0,
{
}

/// What is known after some events.
pub open spec fn run_of(s: EngineView, events: Seq<EventView>) -> EngineView
    decreases events.len(),
{
    if events.len() == 0 {
        s
    } else {
        step_of(run_of(s, events.drop_last()), events.last()).0
    }
}

/// Whether a scan was started and is not running any more.
pub open spec fn is_over(s: EngineView, scan: u64) -> bool {
    scan <= s.started && s.running != Some(scan)
}

/// A request abandons the scan that is running: every scan that was started is
/// over, and what is shown stays.
pub proof fn a_request_supersedes(s: EngineView, reason: Reason, scan: u64)
    requires
        scan <= s.started,
    ensures
        is_over(step_of(s, EventView::Requested(reason)).0, scan),
        step_of(s, EventView::Requested(reason)).0.waiting,
        s.running is Some ==> step_of(s, EventView::Requested(reason)).1[0] == EffectView::Abort,
        step_of(s, EventView::Requested(reason)).0.shown == s.shown,
        !publishes(step_of(s, EventView::Requested(reason)).1),
{
}

proof fn lemma_stays_over(s: EngineView, scan: u64, events: Seq<EventView>)
    requires
        is_over(s, scan),
    ensures
        is_over(run_of(s, events), scan),
    decreases events.len(),
{
    if events.len() > 0 {
        lemma_stays_over(s, scan, events.drop_last());
    }
}

/// A superseded scan publishes nothing: once a scan is over, whatever it still
/// says, and whatever happened in between, changes nothing and has no effect.
pub proof fn a_superseded_scan_is_never_shown(
    s: EngineView,
    scan: u64,
    events: Seq<EventView>,
    report: ReportView,
    error: Seq<char>,
)
    requires
        is_over(s, scan),
    ensures
        ({
            let t = run_of(s, events);
            &&& is_over(t, scan)
            &&& step_of(t, EventView::Reported(scan, report)) == (t, Seq::<EffectView>::empty())
            &&& step_of(t, EventView::Failed(scan, error)) == (t, Seq::<EffectView>::empty())
            &&& step_of(t, EventView::Lost(scan)) == (t, Seq::<EffectView>::empty())
        }),
{
    lemma_stays_over(s, scan, events);
}

/// Whether an event changes what is shown: a report of the scan that is
/// running, or the deletion of a file.
pub open spec fn tells(s: EngineView, event: EventView) -> bool {
    match event {
        EventView::Reported(scan, _) => s.running == Some(scan),
        EventView::Cleared(_) => true,
        _ => false,
    }
}

/// What is shown is what the last report of a running scan says, less the files
/// that were deleted since: no other event changes it or publishes anything.
#[verifier::rlimit(60)]
#[verifier::spinoff_prover]
pub proof fn only_a_report_or_a_deletion_changes_what_is_shown(
    s: EngineView,
    events: Seq<EventView>,
)
    requires
        forall|i: int|
            0 <= i < events.len() ==> !tells(run_of(s, events.take(i)), #[trigger] events[i]),
    ensures
        run_of(s, events).shown == s.shown,
        forall|i: int|
            0 <= i < events.len() ==> !publishes(
                step_of(run_of(s, events.take(i)), #[trigger] events[i]).1,
            ),
    decreases events.len(),
{
    if events.len() > 0 {
        let front = events.drop_last();
        assert forall|i: int| 0 <= i < front.len() implies !tells(
            run_of(s, front.take(i)),
            #[trigger] front[i],
        ) by {
            assert(front[i] == events[i]);
            assert(front.take(i) =~= events.take(i));
        }
        only_a_report_or_a_deletion_changes_what_is_shown(s, front);
        let n = events.len() - 1;
        assert(events.take(n) =~= front);
        assert(!tells(run_of(s, events.take(n)), events[n]));
        assert forall|i: int| 0 <= i < events.len() implies !publishes(
            step_of(run_of(s, events.take(i)), #[trigger] events[i]).1,
        ) by {
            if i < n {
                assert(front[i] == events[i]);
                assert(front.take(i) =~= events.take(i));
            }
        }
    }
}

// ---- whole histories ----

/// An engine that shows nothing and has seen nothing.
pub open spec fn fresh_engine() -> EngineView {
    EngineView {
        shown: seq![],
        waiting: false,
        running: None,
        started: 0,
        announced: false,
        pending: false,
        announced_partial: false,
    }
}

/// How many scans a history has started.
pub open spec fn scans_in(events: Seq<EventView>) -> nat
    decreases events.len(),
{
    if events.len() == 0 {
        0
    } else {
        scans_in(events.drop_last()) + (if events.last() is Elapsed {
            1nat
        } else {
            0nat
        })
    }
}

/// The scan that is in flight after a history: the last that was started, where
/// nothing was requested since and it has not ended.
pub open spec fn in_flight(events: Seq<EventView>) -> Option<nat>
    decreases events.len(),
{
    if events.len() == 0 {
        None
    } else {
        let before = in_flight(events.drop_last());
        match events.last() {
            EventView::Requested(_) => None,
            EventView::Elapsed => Some(scans_in(events)),
            EventView::Reported(scan, _) => if before == Some(scan as nat) {
                None
            } else {
                before
            },
            EventView::Failed(scan, _) => if before == Some(scan as nat) {
                None
            } else {
                before
            },
            EventView::Lost(scan) => if before == Some(scan as nat) {
                None
            } else {
                before
            },
            EventView::Cleared(_) => before,
        }
    }
}

/// What a history says of a file, by the one spelling of its path: the findings of the last scan that reported
/// without being superseded, or nothing where the file was deleted since.
pub open spec fn told_of(events: Seq<EventView>, path: Seq<char>) -> Seq<FindingView>
    decreases events.len(),
{
    if events.len() == 0 {
        seq![]
    } else {
        let before = events.drop_last();
        match events.last() {
            EventView::Reported(scan, report) => if in_flight(before) == Some(scan as nat) {
                shown_in(grouped(report.findings), path)
            } else {
                told_of(before, path)
            },
            EventView::Cleared(gone) => if normal_of(gone) == path {
                seq![]
            } else {
                told_of(before, path)
            },
            _ => told_of(before, path),
        }
    }
}

proof fn lemma_shown_push(shown: Seq<FileView>, f: FileView, path: Seq<char>)
    ensures
        shown_in(shown.push(f), path) == (if shown_paths(shown).contains(path) {
            shown_in(shown, path)
        } else if f.path == path {
            f.findings
        } else {
            seq![]
        }),
    decreases shown.len(),
{
    let all = shown.push(f);
    if shown.len() == 0 {
        assert(all.skip(1) =~= seq![]);
        assert(shown_in(all.skip(1), path) == Seq::<FindingView>::empty());
    } else {
        assert(all.skip(1) =~= shown.skip(1).push(f));
        lemma_shown_push(shown.skip(1), f, path);
        let (paths, rest) = (shown_paths(shown), shown_paths(shown.skip(1)));
        if shown[0].path == path {
            assert(paths[0] == path);
        } else {
            if paths.contains(path) {
                let i = choose|i: int| 0 <= i < paths.len() && paths[i] == path;
                assert(rest[i - 1] == path);
            }
            if rest.contains(path) {
                let i = choose|i: int| 0 <= i < rest.len() && rest[i] == path;
                assert(paths[i + 1] == path);
            }
        }
    }
}

proof fn lemma_without(shown: Seq<FileView>, gone: Seq<char>, path: Seq<char>)
    ensures
        shown_paths(without(shown, gone)).contains(path) <==> (gone != path && shown_paths(
            shown,
        ).contains(path)),
        shown_in(without(shown, gone), path) == (if gone == path {
            seq![]
        } else {
            shown_in(shown, path)
        }),
    decreases shown.len(),
{
    let paths = shown_paths(shown);
    if shown.len() > 0 {
        let front = shown.drop_last();
        let last = shown.last();
        lemma_without(front, gone, path);
        assert(front.push(last) =~= shown);
        lemma_shown_push(front, last, path);
        assert(paths =~= shown_paths(front).push(last.path));
        lemma_push_contains(shown_paths(front), last.path, path);
        if last.path != gone {
            let kept = without(front, gone);
            lemma_shown_push(kept, last, path);
            assert(shown_paths(kept.push(last)) =~= shown_paths(kept).push(last.path));
            lemma_push_contains(shown_paths(kept), last.path, path);
        }
        if !shown_paths(front).contains(path) {
            lemma_not_shown(front, path);
        }
        if gone == path {
            lemma_not_shown(without(shown, gone), path);
        }
    }
}

proof fn lemma_push_contains(all: Seq<Seq<char>>, x: Seq<char>, y: Seq<char>)
    ensures
        all.push(x).contains(y) <==> (all.contains(y) || x == y),
{
    let more = all.push(x);
    if all.contains(y) {
        let i = choose|i: int| 0 <= i < all.len() && all[i] == y;
        assert(more[i] == y);
    }
    if x == y {
        assert(more[all.len() as int] == y);
    }
}

proof fn lemma_not_shown(shown: Seq<FileView>, path: Seq<char>)
    requires
        !shown_paths(shown).contains(path),
    ensures
        shown_in(shown, path) == Seq::<FindingView>::empty(),
    decreases shown.len(),
{
    if shown.len() > 0 {
        let paths = shown_paths(shown);
        assert(paths[0] == shown[0].path);
        let rest = shown_paths(shown.skip(1));
        if rest.contains(path) {
            let i = choose|i: int| 0 <= i < rest.len() && rest[i] == path;
            assert(paths[i + 1] == path);
        }
        lemma_not_shown(shown.skip(1), path);
    }
}

proof fn lemma_history(events: Seq<EventView>)
    requires
        events.len() < u64::MAX,
    ensures
        run_of(fresh_engine(), events).started == scans_in(events),
        scans_in(events) <= events.len(),
        match run_of(fresh_engine(), events).running {
            Some(scan) => in_flight(events) == Some(scan as nat),
            None => in_flight(events) is None,
        },
    decreases events.len(),
{
    if events.len() > 0 {
        lemma_history(events.drop_last());
    }
}

/// What is shown is what the last scan said that reported without being
/// superseded, less the files that were deleted since, whatever happened to an
/// engine: scans that failed, were lost or were superseded leave no trace.
pub proof fn what_is_shown_is_the_last_report(events: Seq<EventView>, path: Seq<char>)
    requires
        events.len() < u64::MAX,
    ensures
        shown_in(run_of(fresh_engine(), events).shown, path) == told_of(events, path),
    decreases events.len(),
{
    if events.len() > 0 {
        let front = events.drop_last();
        what_is_shown_is_the_last_report(front, path);
        lemma_history(front);
        match events.last() {
            EventView::Cleared(gone) => {
                lemma_without(run_of(fresh_engine(), front).shown, normal_of(gone), path);
            },
            _ => {},
        }
    }
}

/// A scan that fails, is lost or is superseded publishes nothing: at every
/// moment of every history, only a deletion and the report of the scan in
/// flight do.
pub proof fn only_the_scan_in_flight_publishes(events: Seq<EventView>, event: EventView)
    requires
        events.len() < u64::MAX,
        publishes(step_of(run_of(fresh_engine(), events), event).1),
    ensures
        match event {
            EventView::Reported(scan, _) => in_flight(events) == Some(scan as nat),
            EventView::Cleared(path) => true,
            _ => false,
        },
{
    lemma_history(events);
}

} // verus!
