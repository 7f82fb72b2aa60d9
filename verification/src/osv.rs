//! The subset of the OSV schema a diagnostic needs, and its conversion to the
//! domain.
use crate::model::{
    ecosystem_name, Advisory, AdvisoryView, Affected, AffectedRange, AffectedView, Ecosystem,
    KeyView, PackageKey, RangeView,
};
use crate::text::{chars, copy_strings, decimal, same, tenths_text};
use vstd::prelude::*;

verus! {

/// A range whose bounds are commit hashes rather than versions.
pub const GIT_RANGE: &'static str = "GIT";

/// One severity of an advisory: a kind, and a vector of that kind.
#[derive(Clone, Debug)]
pub struct OsvSeverity {
    pub kind: String,
    pub score: String,
}

pub struct OsvSeverityView {
    pub kind: Seq<char>,
    pub score: Seq<char>,
}

impl DeepView for OsvSeverity {
    type V = OsvSeverityView;

    open spec fn deep_view(&self) -> OsvSeverityView {
        OsvSeverityView { kind: self.kind@, score: self.score@ }
    }
}

/// A severity, and what its vector scores.
#[derive(Clone, Debug)]
pub struct Scored {
    pub kind: String,
    pub vector: String,
    /// The base score in tenths, where the vector is a valid one of its kind.
    pub tenths: Option<u16>,
}

pub struct ScoredView {
    pub kind: Seq<char>,
    pub vector: Seq<char>,
    pub tenths: Option<u16>,
}

impl DeepView for Scored {
    type V = ScoredView;

    open spec fn deep_view(&self) -> ScoredView {
        ScoredView { kind: self.kind@, vector: self.vector@, tenths: self.tenths }
    }
}

/// One event of a range: at most one of its bounds is used, in this order.
#[derive(Clone, Debug)]
pub struct OsvEvent {
    pub introduced: String,
    pub fixed: String,
    pub last_affected: String,
}

pub struct OsvEventView {
    pub introduced: Seq<char>,
    pub fixed: Seq<char>,
    pub last_affected: Seq<char>,
}

impl DeepView for OsvEvent {
    type V = OsvEventView;

    open spec fn deep_view(&self) -> OsvEventView {
        OsvEventView {
            introduced: self.introduced@,
            fixed: self.fixed@,
            last_affected: self.last_affected@,
        }
    }
}

#[derive(Clone, Debug)]
pub struct OsvRange {
    pub kind: String,
    pub events: Vec<OsvEvent>,
}

pub struct OsvRangeView {
    pub kind: Seq<char>,
    pub events: Seq<OsvEventView>,
}

impl DeepView for OsvRange {
    type V = OsvRangeView;

    open spec fn deep_view(&self) -> OsvRangeView {
        OsvRangeView { kind: self.kind@, events: self.events.deep_view() }
    }
}

#[derive(Clone, Debug)]
pub struct OsvAffected {
    pub ecosystem: String,
    pub name: String,
    pub ranges: Vec<OsvRange>,
    pub versions: Vec<String>,
}

pub struct OsvAffectedView {
    pub ecosystem: Seq<char>,
    pub name: Seq<char>,
    pub ranges: Seq<OsvRangeView>,
    pub versions: Seq<Seq<char>>,
}

impl DeepView for OsvAffected {
    type V = OsvAffectedView;

    open spec fn deep_view(&self) -> OsvAffectedView {
        OsvAffectedView {
            ecosystem: self.ecosystem@,
            name: self.name@,
            ranges: self.ranges.deep_view(),
            versions: self.versions.deep_view(),
        }
    }
}

/// An advisory as published. A field that was absent is empty.
#[derive(Clone, Debug)]
pub struct OsvAdvisory {
    pub id: String,
    pub withdrawn: String,
    pub aliases: Vec<String>,
    pub summary: String,
    pub severity: Vec<OsvSeverity>,
    pub affected: Vec<OsvAffected>,
    pub references: Vec<String>,
}

pub struct OsvAdvisoryView {
    pub id: Seq<char>,
    pub withdrawn: Seq<char>,
    pub aliases: Seq<Seq<char>>,
    pub summary: Seq<char>,
    pub severity: Seq<OsvSeverityView>,
    pub affected: Seq<OsvAffectedView>,
    pub references: Seq<Seq<char>>,
}

impl DeepView for OsvAdvisory {
    type V = OsvAdvisoryView;

    open spec fn deep_view(&self) -> OsvAdvisoryView {
        OsvAdvisoryView {
            id: self.id@,
            withdrawn: self.withdrawn@,
            aliases: self.aliases.deep_view(),
            summary: self.summary@,
            severity: self.severity.deep_view(),
            affected: self.affected.deep_view(),
            references: self.references.deep_view(),
        }
    }
}

// ---- ranges ----

/// How far a timeline has been read: the windows that are closed, and the one
/// that may be open.
pub struct Timeline {
    pub windows: Seq<RangeView>,
    pub current: RangeView,
    pub open: bool,
}

pub open spec fn no_window() -> RangeView {
    RangeView { introduced: seq![], fixed: seq![], last_affected: seq![] }
}

pub open spec fn timeline_start(windows: Seq<RangeView>) -> Timeline {
    Timeline { windows, current: no_window(), open: false }
}

/// An introduction opens a window, and the next fix or last affected version
/// closes it. One that another introduction interrupts stays open-ended.
pub open spec fn timeline_step(t: Timeline, event: OsvEventView) -> Timeline {
    if event.introduced.len() > 0 {
        Timeline {
            windows: if t.open { t.windows.push(t.current) } else { t.windows },
            current: RangeView { introduced: event.introduced, ..no_window() },
            open: true,
        }
    } else if event.fixed.len() > 0 {
        timeline_start(t.windows.push(RangeView { fixed: event.fixed, ..t.current }))
    } else if event.last_affected.len() > 0 {
        timeline_start(t.windows.push(RangeView { last_affected: event.last_affected, ..t.current }))
    } else {
        t
    }
}

pub open spec fn timeline_of(windows: Seq<RangeView>, events: Seq<OsvEventView>) -> Timeline
    decreases events.len(),
{
    if events.len() == 0 {
        timeline_start(windows)
    } else {
        timeline_step(timeline_of(windows, events.drop_last()), events.last())
    }
}

/// The windows once the timeline has ended: an introduction that was never
/// closed means still affected.
pub open spec fn timeline_end(t: Timeline) -> Seq<RangeView> {
    if t.open {
        t.windows.push(t.current)
    } else {
        t.windows
    }
}

/// The windows that event timelines describe, commit ranges left out.
pub open spec fn windows_of(ranges: Seq<OsvRangeView>) -> Seq<RangeView>
    decreases ranges.len(),
{
    if ranges.len() == 0 {
        seq![]
    } else {
        let before = windows_of(ranges.drop_last());
        if ranges.last().kind == GIT_RANGE@ {
            before
        } else {
            timeline_end(timeline_of(before, ranges.last().events))
        }
    }
}

/// The bounds that open windows, in order.
pub open spec fn openings(windows: Seq<RangeView>) -> Seq<Seq<char>>
    decreases windows.len(),
{
    if windows.len() == 0 {
        seq![]
    } else if windows.last().introduced.len() == 0 {
        openings(windows.drop_last())
    } else {
        openings(windows.drop_last()).push(windows.last().introduced)
    }
}

/// The introductions of a timeline, in order.
pub open spec fn introductions(events: Seq<OsvEventView>) -> Seq<Seq<char>>
    decreases events.len(),
{
    if events.len() == 0 {
        seq![]
    } else if events.last().introduced.len() == 0 {
        introductions(events.drop_last())
    } else {
        introductions(events.drop_last()).push(events.last().introduced)
    }
}

proof fn lemma_openings_push(windows: Seq<RangeView>, w: RangeView)
    ensures
        openings(windows.push(w)) == (if w.introduced.len() == 0 {
            openings(windows)
        } else {
            openings(windows).push(w.introduced)
        }),
{
    assert(windows.push(w).drop_last() =~= windows);
}

/// Every introduction opens exactly one window, in order: none is lost, none
/// is doubled, and none is paired with the events of another.
pub proof fn each_introduction_opens_one_window(
    windows: Seq<RangeView>,
    events: Seq<OsvEventView>,
)
    ensures
        openings(timeline_end(timeline_of(windows, events))) == openings(windows)
            + introductions(events),
    decreases events.len(),
{
    let t = timeline_of(windows, events);
    lemma_timeline(windows, events);
    if t.open {
        lemma_openings_push(t.windows, t.current);
    } else {
        assert(openings(t.windows) =~= openings(windows) + introductions(events));
    }
}

proof fn lemma_timeline(windows: Seq<RangeView>, events: Seq<OsvEventView>)
    ensures
        ({
            let t = timeline_of(windows, events);
            &&& t.open <==> t.current.introduced.len() > 0
            &&& !t.open ==> t.current == no_window()
            &&& openings(windows) + introductions(events) == (if t.open {
                openings(t.windows).push(t.current.introduced)
            } else {
                openings(t.windows)
            })
        }),
    decreases events.len(),
{
    if events.len() == 0 {
        assert(openings(windows) + introductions(events) =~= openings(windows));
    } else {
        let front = events.drop_last();
        lemma_timeline(windows, front);
        let before = timeline_of(windows, front);
        let t = timeline_of(windows, events);
        let event = events.last();
        if event.introduced.len() > 0 {
            lemma_openings_push(before.windows, before.current);
            assert(openings(windows) + introductions(events) =~= (openings(windows)
                + introductions(front)).push(event.introduced));
        } else if event.fixed.len() > 0 {
            lemma_openings_push(before.windows, RangeView { fixed: event.fixed, ..before.current });
        } else if event.last_affected.len() > 0 {
            lemma_openings_push(
                before.windows,
                RangeView { last_affected: event.last_affected, ..before.current },
            );
        }
    }
}

/// Commit ranges contribute nothing, wherever they stand: dropping the last of
/// a list changes no window, and so by repetition does dropping any.
pub proof fn commit_ranges_are_dropped(
    before: Seq<OsvRangeView>,
    git: OsvRangeView,
    after: Seq<OsvRangeView>,
)
    requires
        git.kind == GIT_RANGE@,
    ensures
        windows_of(before.push(git) + after) == windows_of(before + after),
    decreases after.len(),
{
    if after.len() == 0 {
        assert(before.push(git) + after =~= before.push(git));
        assert(before + after =~= before);
        assert(before.push(git).drop_last() =~= before);
    } else {
        commit_ranges_are_dropped(before, git, after.drop_last());
        assert((before.push(git) + after).drop_last() =~= before.push(git) + after.drop_last());
        assert((before + after).drop_last() =~= before + after.drop_last());
        assert((before.push(git) + after).last() == after.last());
        assert((before + after).last() == after.last());
    }
}

// ---- severity ----

/// A character without its ASCII case.
pub open spec fn folded(c: char) -> int {
    if 'A' <= c <= 'Z' {
        c as u32 + 32
    } else {
        c as u32 as int
    }
}

/// Whether two texts differ at most in ASCII case.
pub open spec fn alike(a: Seq<char>, b: Seq<char>) -> bool {
    a.len() == b.len() && forall|i: int|
        0 <= i < a.len() ==> folded(#[trigger] a[i]) == folded(b[i])
}

/// A score of at most ten, with one decimal, in tenths.
pub open spec fn score_in(text: Seq<char>) -> Option<u16> {
    if text.len() == 3 && '0' <= text[0] <= '9' && text[1] == '.' && '0' <= text[2] <= '9' {
        Some((10 * (text[0] as u32 - '0' as u32) + (text[2] as u32 - '0' as u32)) as u16)
    } else if text == "10.0"@ {
        Some(100u16)
    } else {
        None
    }
}

/// A score is read back from the way it is shown.
pub proof fn a_score_is_read_as_it_is_shown(tenths: u16)
    requires
        tenths <= 100,
    ensures
        score_in(tenths_text(tenths as nat)) == Some(tenths),
{
    reveal_with_fuel(decimal, 3);
    reveal_strlit(".");
    reveal_strlit("10.0");
    if tenths == 100 {
        assert(tenths_text(100) =~= "10.0"@);
    }
}

/// What the CVSS v3 base score of a vector reads, with one decimal; nothing
/// where the vector is not valid.
pub uninterp spec fn v3_score_text(vector: Seq<char>) -> Option<Seq<char>>;

/// What the CVSS v4 score of a vector reads, with one decimal; nothing where
/// the vector is not valid.
pub uninterp spec fn v4_score_text(vector: Seq<char>) -> Option<Seq<char>>;

pub open spec fn tenths_of(text: Option<Seq<char>>) -> Option<u16> {
    match text {
        Some(text) => score_in(text),
        None => None,
    }
}

/// A severity scored by the rules of its kind, and not at all where the kind
/// is another.
pub open spec fn scored(s: OsvSeverityView) -> ScoredView {
    ScoredView {
        kind: s.kind,
        vector: s.score,
        tenths: if alike(s.kind, "CVSS_V3"@) {
            tenths_of(v3_score_text(s.score))
        } else if alike(s.kind, "CVSS_V4"@) {
            tenths_of(v4_score_text(s.score))
        } else {
            None
        },
    }
}

pub open spec fn all_scored(severities: Seq<OsvSeverityView>) -> Seq<ScoredView> {
    Seq::new(severities.len(), |i: int| scored(severities[i]))
}

/// The first severity of a kind, where `valid` asks for one that has a score.
pub open spec fn first_of_kind(
    severities: Seq<ScoredView>,
    kind: Seq<char>,
    valid: bool,
) -> Option<ScoredView>
    decreases severities.len(),
{
    if severities.len() == 0 {
        None
    } else {
        match first_of_kind(severities.drop_last(), kind, valid) {
            Some(s) => Some(s),
            None => if alike(severities.last().kind, kind) && (valid ==> severities.last().tenths
                is Some) {
                Some(severities.last())
            } else {
                None
            },
        }
    }
}

/// A base score and the vector it came from: the first valid CVSS v3, else the
/// first CVSS v4 if that is valid, else none.
///
/// Version 3 is preferred because it is what almost every other tool shows.
pub open spec fn score_of(severities: Seq<ScoredView>) -> (u16, Seq<char>) {
    match first_of_kind(severities, "CVSS_V3"@, true) {
        Some(s) => (s.tenths->Some_0, s.vector),
        None => match first_of_kind(severities, "CVSS_V4"@, false) {
            Some(s) => match s.tenths {
                Some(tenths) => (tenths, s.vector),
                None => (0u16, seq![]),
            },
            None => (0u16, seq![]),
        },
    }
}

/// A valid CVSS v3 vector decides, whatever else was published and in whatever
/// order.
pub proof fn a_valid_v3_decides(severities: Seq<ScoredView>, i: int)
    requires
        0 <= i < severities.len(),
        alike(severities[i].kind, "CVSS_V3"@),
        severities[i].tenths is Some,
    ensures
        exists|k: int|
            0 <= k <= i && alike((#[trigger] severities[k]).kind, "CVSS_V3"@)
                && severities[k].tenths is Some && score_of(severities) == (
                severities[k].tenths->Some_0,
                severities[k].vector,
            ),
{
    lemma_first_valid(severities, i);
}

proof fn lemma_first_valid(severities: Seq<ScoredView>, i: int)
    requires
        0 <= i < severities.len(),
        alike(severities[i].kind, "CVSS_V3"@),
        severities[i].tenths is Some,
    ensures
        exists|k: int|
            0 <= k <= i && alike((#[trigger] severities[k]).kind, "CVSS_V3"@)
                && severities[k].tenths is Some && first_of_kind(severities, "CVSS_V3"@, true)
                == Some(severities[k]),
    decreases severities.len(),
{
    let front = severities.drop_last();
    if i < front.len() {
        assert(front[i] == severities[i]);
        lemma_first_valid(front, i);
        let k = choose|k: int|
            0 <= k <= i && alike((#[trigger] front[k]).kind, "CVSS_V3"@) && front[k].tenths is Some
                && first_of_kind(front, "CVSS_V3"@, true) == Some(front[k]);
        assert(severities[k] == front[k]);
    } else if first_of_kind(front, "CVSS_V3"@, true) is Some {
        lemma_first_is_valid(front);
        let k = choose|k: int|
            0 <= k < front.len() && alike((#[trigger] front[k]).kind, "CVSS_V3"@)
                && front[k].tenths is Some && first_of_kind(front, "CVSS_V3"@, true) == Some(
                front[k],
            );
        assert(severities[k] == front[k]);
    } else {
        assert(severities.last() == severities[i]);
    }
}

proof fn lemma_first_is_valid(severities: Seq<ScoredView>)
    requires
        first_of_kind(severities, "CVSS_V3"@, true) is Some,
    ensures
        exists|k: int|
            0 <= k < severities.len() && alike((#[trigger] severities[k]).kind, "CVSS_V3"@)
                && severities[k].tenths is Some && first_of_kind(severities, "CVSS_V3"@, true)
                == Some(severities[k]),
    decreases severities.len(),
{
    let front = severities.drop_last();
    if first_of_kind(front, "CVSS_V3"@, true) is Some {
        lemma_first_is_valid(front);
        let k = choose|k: int|
            0 <= k < front.len() && alike((#[trigger] front[k]).kind, "CVSS_V3"@)
                && front[k].tenths is Some && first_of_kind(front, "CVSS_V3"@, true) == Some(
                front[k],
            );
        assert(severities[k] == front[k]);
    } else {
        assert(severities.last() == severities[severities.len() - 1]);
    }
}

// ---- conversion ----

pub open spec fn is_wanted(entry: OsvAffectedView, want: Ecosystem) -> bool {
    entry.name.len() > 0 && entry.ecosystem == ecosystem_name(want)
}

/// What an advisory says of the packages of one ecosystem.
pub open spec fn affected_of(entries: Seq<OsvAffectedView>, want: Ecosystem) -> Seq<AffectedView>
    decreases entries.len(),
{
    if entries.len() == 0 {
        seq![]
    } else if is_wanted(entries.last(), want) {
        affected_of(entries.drop_last(), want).push(
            AffectedView {
                package: KeyView { ecosystem: want, name: entries.last().name },
                ranges: windows_of(entries.last().ranges),
                versions: entries.last().versions,
            },
        )
    } else {
        affected_of(entries.drop_last(), want)
    }
}

/// The advisory for one ecosystem: none where it is withdrawn, has no
/// identifier, or touches nothing in the ecosystem.
pub open spec fn model_of(osv: OsvAdvisoryView, want: Ecosystem) -> Option<AdvisoryView> {
    let affected = affected_of(osv.affected, want);
    if osv.withdrawn.len() > 0 || osv.id.len() == 0 || affected.len() == 0 {
        None
    } else {
        Some(
            AdvisoryView {
                id: osv.id,
                aliases: osv.aliases,
                summary: osv.summary,
                cvss_score: score_of(all_scored(osv.severity)).0,
                cvss_vector: score_of(all_scored(osv.severity)).1,
                affected,
                references: osv.references,
            },
        )
    }
}

/// An advisory converted for an ecosystem speaks of that ecosystem only.
pub proof fn a_converted_advisory_stays_in_its_ecosystem(
    entries: Seq<OsvAffectedView>,
    want: Ecosystem,
)
    ensures
        forall|i: int|
            0 <= i < affected_of(entries, want).len() ==> (#[trigger] affected_of(
                entries,
                want,
            )[i]).package.ecosystem == want,
    decreases entries.len(),
{
    if entries.len() > 0 {
        a_converted_advisory_stays_in_its_ecosystem(entries.drop_last(), want);
        let front = affected_of(entries.drop_last(), want);
        let out = affected_of(entries, want);
        assert forall|i: int| 0 <= i < out.len() implies (#[trigger] out[i]).package.ecosystem
            == want by {
            if i < front.len() {
                assert(out[i] == front[i]);
            }
        }
    }
}

// ---- code ----

fn fold(c: char) -> (r: u32)
    ensures
        r == folded(c),
{
    if 'A' <= c && c <= 'Z' {
        c as u32 + 32
    } else {
        c as u32
    }
}

fn same_ignoring_case(a: &str, b: &str) -> (r: bool)
    ensures
        r == alike(a@, b@),
{
    let x = chars(a);
    let y = chars(b);
    if x.len() != y.len() {
        return false;
    }
    let mut i: usize = 0;
    while i < x.len()
        invariant
            i <= x@.len(),
            x@.len() == y@.len(),
            x@ == a@,
            y@ == b@,
            forall|j: int| 0 <= j < i ==> folded(#[trigger] x@[j]) == folded(y@[j]),
        decreases x@.len() - i,
    {
        if fold(x[i]) != fold(y[i]) {
            proof {
                assert(folded(x@[i as int]) != folded(y@[i as int]));
            }
            return false;
        }
        i += 1;
    }
    true
}

fn find_kind(severities: &Vec<Scored>, kind: &str, valid: bool) -> (r: Option<usize>)
    ensures
        match r {
            Some(i) => i < severities@.len() && first_of_kind(
                severities.deep_view(),
                kind@,
                valid,
            ) == Some(severities@[i as int].deep_view()) && (valid
                ==> severities@[i as int].tenths is Some),
            None => first_of_kind(severities.deep_view(), kind@, valid) is None,
        },
{
    let ghost all = severities.deep_view();
    let mut found: Option<usize> = None;
    let mut i: usize = 0;
    while i < severities.len()
        invariant
            i <= severities@.len(),
            all == severities.deep_view(),
            match found {
                Some(k) => k < severities@.len() && first_of_kind(all.take(i as int), kind@, valid)
                    == Some(severities@[k as int].deep_view()) && (valid
                    ==> severities@[k as int].tenths is Some),
                None => first_of_kind(all.take(i as int), kind@, valid) is None,
            },
        decreases severities@.len() - i,
    {
        proof {
            assert(all.take(i + 1).drop_last() =~= all.take(i as int));
            assert(all.take(i + 1).last() == severities@[i as int].deep_view());
        }
        if found.is_none() && same_ignoring_case(severities[i].kind.as_str(), kind) && (!valid
            || severities[i].tenths.is_some()) {
            found = Some(i);
        }
        i += 1;
    }
    proof {
        assert(all.take(i as int) =~= all);
    }
    found
}

/// `cvss::v3::Base`'s parse and score, the score written with one decimal.
///
/// Trusted: the result depends on the vector alone, and is what
/// [`v3_score_text`] names. Which vectors are valid, and how the base metrics
/// make a score, is left to that crate; its scores have no second decimal. It
/// takes one power, whose last bit may differ between machines, and no vector
/// scores close enough to a tenth for that bit to show.
#[verifier::external_body]
fn v3_score(vector: &str) -> (r: Option<String>)
    ensures
        r.deep_view() == v3_score_text(vector@),
{
    match vector.parse::<cvss::v3::Base>() {
        Ok(base) => Some(format!("{:.1}", base.score().value())),
        Err(_) => None,
    }
}

/// `cvss::v4::Vector`'s parse and score, the score written with one decimal.
///
/// Trusted: the result depends on the vector alone, and is what
/// [`v4_score_text`] names. Which vectors are valid, and how their metrics
/// make a score, is left to that crate; its scores have no second decimal.
#[verifier::external_body]
fn v4_score(vector: &str) -> (r: Option<String>)
    ensures
        r.deep_view() == v4_score_text(vector@),
{
    match vector.parse::<cvss::v4::Vector>() {
        Ok(parsed) => Some(format!("{:.1}", parsed.score().value())),
        Err(_) => None,
    }
}

/// A score of at most ten, written with one decimal, in tenths.
pub fn read_score(text: &str) -> (r: Option<u16>)
    ensures
        r == score_in(text@),
{
    let c = chars(text);
    if c.len() == 3 && '0' <= c[0] && c[0] <= '9' && c[1] == '.' && '0' <= c[2] && c[2] <= '9' {
        Some((10 * (c[0] as u32 - 48) + (c[2] as u32 - 48)) as u16)
    } else if same(text, "10.0") {
        Some(100)
    } else {
        None
    }
}

fn read_option(text: &Option<String>) -> (r: Option<u16>)
    ensures
        r == tenths_of(text.deep_view()),
{
    match text {
        Some(text) => read_score(text.as_str()),
        None => None,
    }
}

/// Of severities that have been scored, the base score in tenths to show, and
/// the vector it came from.
pub fn preferred(severities: &Vec<Scored>) -> (r: (u16, String))
    ensures
        (r.0, r.1@) == score_of(severities.deep_view()),
{
    if let Some(i) = find_kind(severities, "CVSS_V3", true) {
        if let Some(tenths) = severities[i].tenths {
            return (tenths, severities[i].vector.clone());
        }
    }
    if let Some(i) = find_kind(severities, "CVSS_V4", false) {
        if let Some(tenths) = severities[i].tenths {
            return (tenths, severities[i].vector.clone());
        }
    }
    let none = String::new();
    proof {
        assert(none@ =~= seq![]);
    }
    (0, none)
}

/// A base score in tenths and the vector it came from.
pub fn cvss(severities: &Vec<OsvSeverity>) -> (r: (u16, String))
    ensures
        (r.0, r.1@) == score_of(all_scored(severities.deep_view())),
{
    let ghost all = severities.deep_view();
    let mut out: Vec<Scored> = Vec::new();
    while out.len() < severities.len()
        invariant
            out@.len() <= severities@.len(),
            all == severities.deep_view(),
            forall|k: int| 0 <= k < out@.len() ==> (#[trigger] out@[k]).deep_view() == scored(all[k]),
        decreases severities@.len() - out@.len(),
    {
        let i: usize = out.len();
        let s = &severities[i];
        let tenths = if same_ignoring_case(s.kind.as_str(), "CVSS_V3") {
            read_option(&v3_score(s.score.as_str()))
        } else if same_ignoring_case(s.kind.as_str(), "CVSS_V4") {
            read_option(&v4_score(s.score.as_str()))
        } else {
            None
        };
        proof {
            assert(all[i as int] == s.deep_view());
        }
        out.push(Scored { kind: s.kind.clone(), vector: s.score.clone(), tenths });
    }
    proof {
        assert(out.deep_view() =~= all_scored(all));
    }
    preferred(&out)
}

fn empty_window() -> (r: AffectedRange)
    ensures
        r.deep_view() == no_window(),
{
    AffectedRange { introduced: String::new(), fixed: String::new(), last_affected: String::new() }
}

fn read_timeline(events: &Vec<OsvEvent>, out: &mut Vec<AffectedRange>)
    ensures
        final(out).deep_view() == timeline_end(
            timeline_of(old(out).deep_view(), events.deep_view()),
        ),
{
    let ghost all = events.deep_view();
    let ghost start = out.deep_view();
    let mut current = empty_window();
    let mut open = false;
    let mut i: usize = 0;
    while i < events.len()
        invariant
            i <= events@.len(),
            all == events.deep_view(),
            (Timeline { windows: out.deep_view(), current: current.deep_view(), open })
                == timeline_of(start, all.take(i as int)),
        decreases events@.len() - i,
    {
        let event = &events[i];
        let ghost before = out.deep_view();
        proof {
            assert(all.take(i + 1).drop_last() =~= all.take(i as int));
            assert(all.take(i + 1).last() == event.deep_view());
        }
        if !event.introduced.as_str().is_empty() {
            let mut next = AffectedRange {
                introduced: event.introduced.clone(),
                fixed: String::new(),
                last_affected: String::new(),
            };
            core::mem::swap(&mut next, &mut current);
            if open {
                out.push(next);
                proof {
                    assert(out.deep_view() =~= before.push(next.deep_view()));
                }
            }
            open = true;
        } else if !event.fixed.as_str().is_empty() {
            let mut done = empty_window();
            core::mem::swap(&mut done, &mut current);
            done.fixed = event.fixed.clone();
            out.push(done);
            proof {
                assert(out.deep_view() =~= before.push(done.deep_view()));
            }
            open = false;
        } else if !event.last_affected.as_str().is_empty() {
            let mut done = empty_window();
            core::mem::swap(&mut done, &mut current);
            done.last_affected = event.last_affected.clone();
            out.push(done);
            proof {
                assert(out.deep_view() =~= before.push(done.deep_view()));
            }
            open = false;
        }
        i += 1;
    }
    proof {
        assert(all.take(i as int) =~= all);
    }
    let ghost before = out.deep_view();
    if open {
        out.push(current);
        proof {
            assert(out.deep_view() =~= before.push(current.deep_view()));
        }
    }
}

/// Turns event timelines into explicit ranges.
///
/// `GIT` ranges are dropped, because both comparators accept every input and a
/// commit hash would be silently ordered as a version, and offered as a fix.
/// Only that type is dropped, so that a range whose type is absent or
/// unrecognised is still indexed: this can lose a hash, never an advisory.
pub fn flatten_ranges(ranges: &Vec<OsvRange>) -> (r: Vec<AffectedRange>)
    ensures
        r.deep_view() == windows_of(ranges.deep_view()),
{
    let ghost all = ranges.deep_view();
    let mut out: Vec<AffectedRange> = Vec::new();
    let mut i: usize = 0;
    proof {
        assert(out.deep_view() =~= seq![]);
    }
    while i < ranges.len()
        invariant
            i <= ranges@.len(),
            all == ranges.deep_view(),
            out.deep_view() == windows_of(all.take(i as int)),
        decreases ranges@.len() - i,
    {
        proof {
            assert(all.take(i + 1).drop_last() =~= all.take(i as int));
            assert(all.take(i + 1).last() == ranges@[i as int].deep_view());
        }
        if !same(ranges[i].kind.as_str(), GIT_RANGE) {
            read_timeline(&ranges[i].events, &mut out);
        }
        i += 1;
    }
    proof {
        assert(all.take(i as int) =~= all);
    }
    out
}

impl OsvAdvisory {
    /// Converts to the domain type, keeping only one ecosystem.
    ///
    /// Returns `None` for an advisory that is withdrawn, that has no id, or
    /// that touches nothing in the wanted ecosystem.
    pub fn into_model(self, want: Ecosystem) -> (r: Option<Advisory>)
        ensures
            r.deep_view() == model_of(self.deep_view(), want),
    {
        if !self.withdrawn.as_str().is_empty() || self.id.as_str().is_empty() {
            return None;
        }
        let ghost all = self.affected.deep_view();
        let mut affected: Vec<Affected> = Vec::new();
        let mut i: usize = 0;
        proof {
            assert(affected.deep_view() =~= seq![]);
        }
        while i < self.affected.len()
            invariant
                i <= self.affected@.len(),
                all == self.affected.deep_view(),
                affected.deep_view() == affected_of(all.take(i as int), want),
            decreases self.affected@.len() - i,
        {
            let entry = &self.affected[i];
            let ghost before = affected.deep_view();
            proof {
                assert(all.take(i + 1).drop_last() =~= all.take(i as int));
                assert(all.take(i + 1).last() == entry.deep_view());
            }
            if !entry.name.as_str().is_empty() && same(entry.ecosystem.as_str(), want.as_str()) {
                affected.push(
                    Affected {
                        package: PackageKey::new(want, entry.name.as_str()),
                        ranges: flatten_ranges(&entry.ranges),
                        versions: copy_strings(&entry.versions),
                    },
                );
                proof {
                    let a = affected@.last().deep_view();
                    assert(affected.deep_view() =~= before.push(a));
                }
            }
            i += 1;
        }
        proof {
            assert(all.take(i as int) =~= all);
        }
        if affected.len() == 0 {
            return None;
        }
        let (cvss_score, cvss_vector) = cvss(&self.severity);
        Some(
            Advisory {
                id: self.id,
                aliases: self.aliases,
                summary: self.summary,
                cvss_score,
                cvss_vector,
                affected,
                references: self.references,
            },
        )
    }
}

} // verus!
