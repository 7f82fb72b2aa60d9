//! The upgrade quick fix.
//!
//! A finding already knows what to upgrade to. What it does not know is *where
//! the version is written*: so the one file the action is offered on is parsed
//! again, and the span read straight off the sighting. The text parsed is the
//! buffer the user is looking at rather than whatever was last saved.
use crate::config::NAME;
use crate::diagnostics::{
    diagnostic_of, diagnostics_of, is_elsewhere, recoded, reencode, rendered, resolved_elsewhere,
    sightings_in, summarised, summary_of,
};
use crate::extract::{format_of, parsed_of, parser_for, version_span, version_span_of, Format};
use crate::model::{anchor_of, ExtractedView, Finding, FindingView, Fix, FixView, Range};
use crate::path::{file_name, name_of};
use crate::span::Encoding;
use crate::text::{plain_lines, plain_lines_of, same};
use vstd::prelude::*;

verus! {

/// A diagnostic as a client sends it back: who it came from, and its code.
#[derive(Clone, Debug)]
pub struct Sent {
    pub source: Option<String>,
    pub code: Option<String>,
}

/// What a [`Sent`] says.
pub struct SentView {
    pub source: Option<Seq<char>>,
    pub code: Option<Seq<char>>,
}

impl DeepView for Sent {
    type V = SentView;

    open spec fn deep_view(&self) -> SentView {
        SentView { source: self.source.deep_view(), code: self.code.deep_view() }
    }
}

/// What a client asks about: the lines it has selected, and the diagnostics it
/// knows of there.
#[derive(Clone, Debug)]
pub struct Asking {
    pub first_line: u32,
    pub last_line: u32,
    pub diagnostics: Vec<Sent>,
}

/// What an [`Asking`] says.
pub struct AskingView {
    pub first_line: u32,
    pub last_line: u32,
    pub diagnostics: Seq<SentView>,
}

impl DeepView for Asking {
    type V = AskingView;

    open spec fn deep_view(&self) -> AskingView {
        AskingView {
            first_line: self.first_line,
            last_line: self.last_line,
            diagnostics: self.diagnostics.deep_view(),
        }
    }
}

pub open spec fn is_ours(d: SentView) -> bool {
    d.source == Some(NAME@)
}

pub open spec fn any_ours(ds: Seq<SentView>) -> bool {
    exists|i: int| 0 <= i < ds.len() && is_ours(#[trigger] ds[i])
}

/// The first diagnostic of ours with a code.
pub open spec fn ours_with(ds: Seq<SentView>, id: Seq<char>) -> Option<nat>
    decreases ds.len(),
{
    if ds.len() == 0 {
        None
    } else {
        match ours_with(ds.drop_last(), id) {
            Some(i) => Some(i),
            None => if is_ours(ds.last()) && ds.last().code == Some(id) {
                Some((ds.len() - 1) as nat)
            } else {
                None
            },
        }
    }
}

/// Whether a client is asking about a finding, and its own diagnostic for it.
///
/// By the advisory's identifier wherever the client sends diagnostics of ours,
/// since positions go wrong exactly where the buffer is being edited; else by
/// the lines that are selected.
pub open spec fn selects_of(asking: AskingView, f: FindingView) -> Option<Option<nat>> {
    if any_ours(asking.diagnostics) {
        if f.advisories.len() == 0 {
            None
        } else {
            match ours_with(asking.diagnostics, f.advisories[0].id) {
                Some(i) => Some(Some(i)),
                None => None,
            }
        }
    } else {
        let anchor = anchor_of(f).range;
        if asking.first_line <= anchor.end.line && anchor.start.line <= asking.last_line {
            Some(None)
        } else {
            None
        }
    }
}

fn from_us(d: &Sent) -> (r: bool)
    ensures
        r == is_ours(d.deep_view()),
{
    match &d.source {
        Some(s) => same(s.as_str(), NAME),
        None => false,
    }
}

fn has_code(d: &Sent, id: &str) -> (r: bool)
    ensures
        r == (d.deep_view().code == Some(id@)),
{
    match &d.code {
        Some(c) => same(c.as_str(), id),
        None => false,
    }
}

/// Whether the client is asking about this finding, and which of the
/// diagnostics it sent is its own for it.
pub fn selects(asking: &Asking, finding: &Finding) -> (r: Option<Option<usize>>)
    ensures
        match r {
            Some(Some(i)) => selects_of(asking.deep_view(), finding.deep_view()) == Some(
                Some(i as nat),
            ) && i < asking.diagnostics@.len(),
            Some(None) => selects_of(asking.deep_view(), finding.deep_view()) == Some(None::<nat>),
            None => selects_of(asking.deep_view(), finding.deep_view()) is None,
        },
{
    let ghost ds = asking.diagnostics.deep_view();
    let ghost f = finding.deep_view();
    let mut ours = false;
    let mut i: usize = 0;
    while i < asking.diagnostics.len()
        invariant
            i <= asking.diagnostics@.len(),
            ds == asking.diagnostics.deep_view(),
            ours == (exists|k: int| 0 <= k < i && is_ours(#[trigger] ds[k])),
        decreases asking.diagnostics@.len() - i,
    {
        proof {
            assert(ds[i as int] == asking.diagnostics@[i as int].deep_view());
        }
        if from_us(&asking.diagnostics[i]) {
            ours = true;
        }
        i += 1;
    }
    if !ours {
        let anchor = finding.anchor_site().range;
        return if asking.first_line <= anchor.end.line && anchor.start.line <= asking.last_line {
            Some(None)
        } else {
            None
        };
    }
    let worst = match finding.worst() {
        Some(worst) => worst,
        None => return None,
    };
    let mut found: Option<usize> = None;
    let mut j: usize = 0;
    while j < asking.diagnostics.len()
        invariant
            j <= asking.diagnostics@.len(),
            ds == asking.diagnostics.deep_view(),
            match found {
                Some(k) => ours_with(ds.take(j as int), worst.id@) == Some(k as nat) && k
                    < asking.diagnostics@.len(),
                None => ours_with(ds.take(j as int), worst.id@) is None,
            },
        decreases asking.diagnostics@.len() - j,
    {
        let d = &asking.diagnostics[j];
        proof {
            assert(ds.take(j + 1).drop_last() =~= ds.take(j as int));
            assert(ds.take(j + 1).last() == d.deep_view());
        }
        if found.is_none() && from_us(d) && has_code(d, worst.id.as_str()) {
            found = Some(j);
        }
        j += 1;
    }
    proof {
        assert(ds.take(j as int) =~= ds);
    }
    match found {
        Some(k) => Some(Some(k)),
        None => None,
    }
}

/// What an upgrade is called. Where the version was pinned in a lockfile,
/// editing the manifest alone leaves the lockfile saying something else, and
/// that is said here rather than discovered afterwards.
pub open spec fn title_of(f: FindingView, target: Seq<char>, path: Seq<char>) -> Seq<char> {
    let update = "Update "@ + f.package.key.name + " to "@ + target;
    if is_elsewhere(f) {
        update + " in "@ + (if name_of(path).len() > 0 {
            name_of(path)
        } else {
            "the manifest"@
        }) + " (lockfile not updated)"@
    } else {
        update
    }
}

pub fn title(finding: &Finding, target: &str, path: &str) -> (r: String)
    ensures
        r@ == title_of(finding.deep_view(), target@, path@),
{
    let update = "Update ".to_owned().concat(finding.package.name()).concat(" to ").concat(target);
    if resolved_elsewhere(finding) {
        let name = file_name(path);
        let file = if name.as_str().is_empty() { "the manifest" } else { name.as_str() };
        update.concat(" in ").concat(file).concat(" (lockfile not updated)")
    } else {
        update
    }
}

/// A quick fix: one version rewritten.
#[derive(Clone, Debug)]
pub struct Upgrade {
    pub title: String,
    /// Which of the diagnostics that were sent it settles.
    pub diagnostic: Option<usize>,
    /// The version of the document the edit was computed against, where it is
    /// known: a client whose document has moved on rejects the edit.
    pub document_version: Option<i32>,
    /// Where the version is, as the client counts columns.
    pub range: Range,
    pub new_text: String,
}

/// What an [`Upgrade`] says.
pub struct UpgradeView {
    pub title: Seq<char>,
    pub diagnostic: Option<nat>,
    pub document_version: Option<i32>,
    pub range: Range,
    pub new_text: Seq<char>,
}

impl DeepView for Upgrade {
    type V = UpgradeView;

    open spec fn deep_view(&self) -> UpgradeView {
        UpgradeView {
            title: self.title@,
            diagnostic: match self.diagnostic {
                Some(i) => Some(i as nat),
                None => None,
            },
            document_version: self.document_version,
            range: self.range,
            new_text: self.new_text@,
        }
    }
}

/// The quick fix for a finding: where it has a version to upgrade to, the
/// client asks about it, and there is a place to write the version.
pub open spec fn upgrade_of(
    path: Seq<char>,
    source: Seq<char>,
    document_version: Option<i32>,
    sightings: Seq<ExtractedView>,
    asking: AskingView,
    encoding: Encoding,
    f: FindingView,
) -> Option<UpgradeView> {
    match (f.fix, selects_of(asking, f), version_span_of(sightings, f)) {
        (FixView::Clears(target), Some(diagnostic), Some(span)) => Some(
            UpgradeView {
                title: title_of(f, target, path),
                diagnostic,
                document_version,
                range: recoded(span, plain_lines_of(source), encoding),
                new_text: target,
            },
        ),
        _ => None,
    }
}

pub open spec fn upgrades_among(
    path: Seq<char>,
    source: Seq<char>,
    document_version: Option<i32>,
    sightings: Seq<ExtractedView>,
    asking: AskingView,
    encoding: Encoding,
    findings: Seq<FindingView>,
) -> Seq<UpgradeView>
    decreases findings.len(),
{
    if findings.len() == 0 {
        seq![]
    } else {
        let before = upgrades_among(
            path,
            source,
            document_version,
            sightings,
            asking,
            encoding,
            findings.drop_last(),
        );
        let f = findings.last();
        match upgrade_of(path, source, document_version, sightings, asking, encoding, f) {
            Some(u) => before.push(u),
            None => before,
        }
    }
}

/// The quick fixes for a file; none where no parser reads it.
pub open spec fn upgrades_of(
    path: Seq<char>,
    source: Seq<char>,
    document_version: Option<i32>,
    findings: Seq<FindingView>,
    asking: AskingView,
    encoding: Encoding,
) -> Seq<UpgradeView> {
    match format_of(name_of(path)) {
        Some(format) => upgrades_among(
            path,
            source,
            document_version,
            parsed_of(format, source, path),
            asking,
            encoding,
            findings,
        ),
        None => seq![],
    }
}

/// One quick fix per finding asked about that has a version to upgrade to and
/// a place to write it.
pub fn upgrades(
    path: &str,
    source: &str,
    document_version: Option<i32>,
    findings: &Vec<Finding>,
    asking: &Asking,
    encoding: Encoding,
) -> (r: Vec<Upgrade>)
    ensures
        r.deep_view() == upgrades_of(
            path@,
            source@,
            document_version,
            findings.deep_view(),
            asking.deep_view(),
            encoding,
        ),
{
    let mut out: Vec<Upgrade> = Vec::new();
    proof {
        assert(out.deep_view() =~= seq![]);
    }
    let format = match parser_for(path) {
        Some(format) => format,
        None => return out,
    };
    let sightings = format.parse(source, path);
    let file = plain_lines(source);
    let ghost all = findings.deep_view();
    let ghost found = sightings.deep_view();
    let ghost asked = asking.deep_view();
    let mut i: usize = 0;
    while i < findings.len()
        invariant
            i <= findings@.len(),
            all == findings.deep_view(),
            found == sightings.deep_view(),
            asked == asking.deep_view(),
            file.deep_view() == plain_lines_of(source@),
            out.deep_view() == upgrades_among(
                path@,
                source@,
                document_version,
                found,
                asked,
                encoding,
                all.take(i as int),
            ),
        decreases findings@.len() - i,
    {
        let finding = &findings[i];
        let ghost before = out.deep_view();
        proof {
            assert(all.take(i + 1).drop_last() =~= all.take(i as int));
            assert(all.take(i + 1).last() == finding.deep_view());
        }
        // A fix that names nothing has nothing to offer: a guess would be
        // worse.
        if let Fix::Clears(target) = &finding.fix {
            if let Some(diagnostic) = selects(asking, finding) {
                if let Some(span) = version_span(&sightings, finding) {
                    let u = Upgrade {
                        title: title(finding, target.as_str(), path),
                        diagnostic,
                        document_version,
                        range: reencode(span, &file, encoding),
                        new_text: target.clone(),
                    };
                    out.push(u);
                    proof {
                        assert(out.deep_view() =~= before.push(u.deep_view()));
                    }
                }
            }
        }
        i += 1;
    }
    proof {
        assert(all.take(i as int) =~= all);
    }
    out
}

/// A quick fix writes exactly the version the finding's fix names, names the
/// version of the document it was computed against, and writes only
/// over a version that the file declares for the same package.
pub proof fn an_upgrade_writes_the_fix(
    path: Seq<char>,
    source: Seq<char>,
    document_version: Option<i32>,
    sightings: Seq<ExtractedView>,
    asking: AskingView,
    encoding: Encoding,
    f: FindingView,
)
    ensures
        upgrade_of(path, source, document_version, sightings, asking, encoding, f) matches Some(u)
            ==> f.fix == FixView::Clears(u.new_text) && u.document_version == document_version
            && exists|i: int|
            0 <= i < sightings.len() && (#[trigger] sightings[i]).package.key == f.package.key
                && sightings[i].version_span is Some && u.range == recoded(
                sightings[i].version_span->Some_0,
                plain_lines_of(source),
                encoding,
            ),
{
    crate::extract::a_version_span_is_of_the_package(sightings, f);
    if let Some(u) = upgrade_of(path, source, document_version, sightings, asking, encoding, f) {
        let i = choose|i: int|
            0 <= i < sightings.len() && (#[trigger] sightings[i]).package.key == f.package.key
                && sightings[i].version_span == version_span_of(sightings, f);
        assert(sightings[i].version_span is Some);
    }
}

proof fn lemma_rendered(
    findings: Seq<FindingView>,
    sightings: Seq<ExtractedView>,
    key: Seq<char>,
    k: int,
) -> (i: int)
    requires
        0 <= k < findings.len(),
        findings[k].advisories.len() > 0,
    ensures
        0 <= i < rendered(findings, sightings, key).len(),
        Some(rendered(findings, sightings, key)[i]) == diagnostic_of(
            findings[k],
            version_span_of(sightings, findings[k]),
            key,
        ),
    decreases findings.len(),
{
    let front = findings.drop_last();
    let before = rendered(front, sightings, key);
    if k < front.len() {
        assert(front[k] == findings[k]);
        lemma_rendered(front, sightings, key, k)
    } else {
        before.len() as int
    }
}

/// The squiggle is what the quick fix rewrites: among a file's diagnostics is
/// one for the finding, with the range of the edit.
pub proof fn the_squiggle_is_what_the_fix_rewrites(
    path: Seq<char>,
    source: Seq<char>,
    document_version: Option<i32>,
    findings: Seq<FindingView>,
    k: int,
    asking: AskingView,
    encoding: Encoding,
    key: Seq<char>,
) -> (i: int)
    requires
        0 <= k < findings.len(),
        findings[k].advisories.len() > 0,
        upgrade_of(
            path,
            source,
            document_version,
            sightings_in(path, Some(source)),
            asking,
            encoding,
            findings[k],
        ) is Some,
    ensures
        ({
            let shown = diagnostics_of(path, findings, Some(source), encoding, key);
            let upgrade = upgrade_of(
                path,
                source,
                document_version,
                sightings_in(path, Some(source)),
                asking,
                encoding,
                findings[k],
            );
            &&& 0 <= i < shown.len()
            &&& shown[i].range == upgrade->Some_0.range
            &&& shown[i].code == findings[k].advisories[0].id
        }),
{
    let sightings = sightings_in(path, Some(source));
    let at = lemma_rendered(findings, sightings, key, k);
    let plain = summarised(path, findings, Some(source), key);
    let i = match summary_of(path, findings, Some(source)) {
        Some(_) => at + 1,
        None => at,
    };
    assert(plain[i] == rendered(findings, sightings, key)[at]);
    i
}

proof fn lemma_no_upgrades(
    path: Seq<char>,
    source: Seq<char>,
    document_version: Option<i32>,
    sightings: Seq<ExtractedView>,
    asking: AskingView,
    encoding: Encoding,
    findings: Seq<FindingView>,
)
    requires
        forall|i: int| 0 <= i < sightings.len() ==> (#[trigger] sightings[i]).version_span is None,
    ensures
        upgrades_among(
            path,
            source,
            document_version,
            sightings,
            asking,
            encoding,
            findings,
        ).len() == 0,
    decreases findings.len(),
{
    if findings.len() > 0 {
        let front = findings.drop_last();
        lemma_no_upgrades(path, source, document_version, sightings, asking, encoding, front);
        let f = findings.last();
        crate::extract::a_version_span_is_of_the_package(sightings, f);
        if version_span_of(sightings, f) is Some {
            let i = choose|i: int|
                0 <= i < sightings.len() && (#[trigger] sightings[i]).package.key == f.package.key
                    && sightings[i].version_span == version_span_of(sightings, f);
            assert(sightings[i].version_span is None);
        }
    }
}

/// A lockfile is never rewritten: no quick fix is offered in one.
pub proof fn a_lockfile_is_never_rewritten(
    path: Seq<char>,
    source: Seq<char>,
    document_version: Option<i32>,
    findings: Seq<FindingView>,
    asking: AskingView,
    encoding: Encoding,
)
    requires
        format_of(name_of(path)) == Some(Format::PackageLock) || format_of(name_of(path)) == Some(
            Format::CargoLock,
        ),
    ensures
        upgrades_of(path, source, document_version, findings, asking, encoding).len() == 0,
{
    let format = format_of(name_of(path))->Some_0;
    let sightings = parsed_of(format, source, path);
    assert forall|i: int| 0 <= i < sightings.len() implies (
    #[trigger] sightings[i]).version_span is None by {
        crate::manifest::laws::lockfiles_offer_no_version_span(format, source, path, i);
    }
    lemma_no_upgrades(path, source, document_version, sightings, asking, encoding, findings);
}

} // verus!
