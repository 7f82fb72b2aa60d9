//! What a published record says of a package, and what is reported of it.
use crate::index::{lookup_of, mentions};
use crate::matcher::{
    affects, applicable_of, candidates_of, entry_affects, findings_of, fix_of, hits_are_sorted,
    hits_of, in_range, in_some_range, is_above,
};
use crate::model::{
    ecosystem_name, entry_fixes, is_malicious, range_fixes, severity_of, AdvisoryView, AffectedView,
    Ecosystem, ExtractedView, FixView, KeyView, PackageView, RangeView, Severity,
};
use crate::order::Order;
use crate::osv::{
    affected_of, alike, all_scored, first_of_kind, is_wanted, model_of, score_of, timeline_end,
    timeline_of, timeline_start, timeline_step, windows_of, OsvAdvisoryView, OsvAffectedView,
    OsvEventView, OsvRangeView, ScoredView, Timeline,
};
use crate::version::{comparing_with_a_string_parses_it, strings_order, version_of};
use vstd::prelude::*;

verus! {

// ---- windows ----

/// An event that says when a flaw came in.
pub open spec fn introduced(version: Seq<char>) -> OsvEventView {
    OsvEventView { introduced: version, fixed: seq![], last_affected: seq![] }
}

/// An event that says what fixed it.
pub open spec fn fixed(version: Seq<char>) -> OsvEventView {
    OsvEventView { introduced: seq![], fixed: version, last_affected: seq![] }
}

/// An event that says which version was the last that has it.
pub open spec fn last_affected(version: Seq<char>) -> OsvEventView {
    OsvEventView { introduced: seq![], fixed: seq![], last_affected: version }
}

/// The window from one version up to a fix.
pub open spec fn until(from: Seq<char>, fix: Seq<char>) -> RangeView {
    RangeView { introduced: from, fixed: fix, last_affected: seq![] }
}

/// The window from one version up to and with another.
pub open spec fn through(from: Seq<char>, last: Seq<char>) -> RangeView {
    RangeView { introduced: from, fixed: seq![], last_affected: last }
}

/// The window from one version on.
pub open spec fn onwards(from: Seq<char>) -> RangeView {
    RangeView { introduced: from, fixed: seq![], last_affected: seq![] }
}

/// The windows of one range of versions.
pub open spec fn windows_in(events: Seq<OsvEventView>) -> Seq<RangeView> {
    windows_of(seq![OsvRangeView { kind: "SEMVER"@, events }])
}

proof fn lemma_windows_in(kind: Seq<char>, events: Seq<OsvEventView>)
    requires
        kind != "GIT"@,
    ensures
        windows_of(seq![OsvRangeView { kind, events }]) == timeline_end(timeline_of(seq![], events)),
{
    let one = seq![OsvRangeView { kind, events }];
    assert(one.drop_last() =~= seq![]);
    assert(windows_of(one.drop_last()) =~= seq![]);
}

proof fn lemma_semver()
    ensures
        "SEMVER"@ != "GIT"@,
{
    reveal_strlit("SEMVER");
    reveal_strlit("GIT");
    assert("SEMVER"@.len() == 6 && "GIT"@.len() == 3);
}

/// Two timelines that differ in the windows closed before go on alike.
pub open spec fn ahead(t: Timeline, u: Timeline, before: Seq<RangeView>) -> bool {
    t.windows == before + u.windows && t.current == u.current && t.open == u.open
}

proof fn lemma_ahead(
    w: Seq<RangeView>,
    a: Seq<OsvEventView>,
    b: Seq<OsvEventView>,
    before: Seq<RangeView>,
    rest: Seq<OsvEventView>,
)
    requires
        ahead(timeline_of(w, a), timeline_of(seq![], b), before),
    ensures
        ahead(timeline_of(w, a + rest), timeline_of(seq![], b + rest), before),
        timeline_end(timeline_of(w, a + rest)) == before + timeline_end(
            timeline_of(seq![], b + rest),
        ),
    decreases rest.len(),
{
    if rest.len() == 0 {
        assert(a + rest =~= a);
        assert(b + rest =~= b);
    } else {
        lemma_ahead(w, a, b, before, rest.drop_last());
        assert((a + rest).drop_last() =~= a + rest.drop_last());
        assert((b + rest).drop_last() =~= b + rest.drop_last());
        let t = timeline_of(w, a + rest.drop_last());
        let u = timeline_of(seq![], b + rest.drop_last());
        let e = rest.last();
        assert((a + rest).last() == e && (b + rest).last() == e);
        let (x, y) = (timeline_step(t, e), timeline_step(u, e));
        assert(x.windows =~= before + y.windows);
    }
    let t = timeline_of(w, a + rest);
    let u = timeline_of(seq![], b + rest);
    assert(timeline_end(t) =~= before + timeline_end(u));
}

/// Ranges say what each of them says, in order; what is about commits says
/// nothing.
pub proof fn ranges_add_up(a: Seq<OsvRangeView>, b: Seq<OsvRangeView>)
    ensures
        windows_of(a + b) == windows_of(a) + windows_of(b),
    decreases b.len(),
{
    if b.len() == 0 {
        assert(a + b =~= a);
        assert(windows_of(a) + windows_of(b) =~= windows_of(a));
    } else {
        let front = b.drop_last();
        ranges_add_up(a, front);
        assert((a + b).drop_last() =~= a + front);
        assert((a + b).last() == b.last());
        let r = b.last();
        if r.kind != "GIT"@ {
            let none = Seq::<OsvEventView>::empty();
            let (p, q) = (windows_of(a + front), windows_of(front));
            assert(p + Seq::<RangeView>::empty() =~= p);
            assert(q + Seq::<RangeView>::empty() =~= q);
            lemma_ahead(p, none, none, p, r.events);
            lemma_ahead(q, none, none, q, r.events);
            assert(none + r.events =~= r.events);
            let e = timeline_end(timeline_of(seq![], r.events));
            assert(windows_of(a) + (q + e) =~= (windows_of(a) + q) + e);
        }
    }
}

/// The type of a range makes no difference, but for commits.
pub proof fn only_commit_ranges_are_told_apart(kind: Seq<char>, events: Seq<OsvEventView>)
    ensures
        windows_of(seq![OsvRangeView { kind, events }]) == (if kind == "GIT"@ {
            seq![]
        } else {
            windows_in(events)
        }),
{
    lemma_semver();
    if kind != "GIT"@ {
        lemma_windows_in(kind, events);
        lemma_windows_in("SEMVER"@, events);
    } else {
        let one = seq![OsvRangeView { kind, events }];
        let none = Seq::<OsvRangeView>::empty();
        assert(one.drop_last() =~= none);
        assert(one.last().kind == "GIT"@);
        assert(windows_of(none) =~= seq![]);
        assert(windows_of(one) == windows_of(one.drop_last()));
    }
}

/// An introduction starts afresh: what stands before it says what it says on
/// its own, and so does what follows.
pub proof fn an_introduction_starts_afresh(
    before: Seq<OsvEventView>,
    version: Seq<char>,
    after: Seq<OsvEventView>,
)
    requires
        version.len() > 0,
    ensures
        windows_in(before + seq![introduced(version)] + after) == windows_in(before) + windows_in(
            seq![introduced(version)] + after,
        ),
{
    lemma_semver();
    let one = seq![introduced(version)];
    let a = before + one;
    let none = Seq::<RangeView>::empty();
    lemma_windows_in("SEMVER"@, a + after);
    lemma_windows_in("SEMVER"@, before);
    lemma_windows_in("SEMVER"@, one + after);
    assert(a.drop_last() =~= before);
    assert(one.drop_last() =~= seq![]);
    lemma_two(introduced(version), introduced(version));
    assert(a.last() == introduced(version));
    assert(timeline_of(none, a) == timeline_step(timeline_of(none, a.drop_last()), a.last()));
    let t = timeline_of(none, a);
    let u = timeline_of(none, one);
    assert(t.windows == timeline_end(timeline_of(none, before)));
    assert(u.windows =~= none);
    assert(t.windows =~= windows_in(before) + u.windows);
    lemma_ahead(none, a, one, windows_in(before), after);
}

proof fn lemma_two(x: OsvEventView, y: OsvEventView)
    ensures
        timeline_of(seq![], seq![x, y]) == timeline_step(
            timeline_step(timeline_start(seq![]), x),
            y,
        ),
        timeline_of(seq![], seq![x]) == timeline_step(timeline_start(seq![]), x),
{
    let none = Seq::<OsvEventView>::empty();
    let w = Seq::<RangeView>::empty();
    let one = seq![x];
    let two = seq![x, y];
    assert(two.drop_last() =~= one);
    assert(one.drop_last() =~= none);
    assert(one.last() == x && two.last() == y);
    assert(timeline_of(w, none) == timeline_start(w));
    assert(timeline_of(w, one) == timeline_step(timeline_of(w, one.drop_last()), one.last()));
    assert(timeline_of(w, two) == timeline_step(timeline_of(w, two.drop_last()), two.last()));
}

proof fn lemma_closed(events: Seq<OsvEventView>, w: RangeView, rest: Seq<OsvEventView>)
    requires
        timeline_of(seq![], events) == timeline_start(seq![w]),
    ensures
        windows_in(events + rest) == seq![w] + windows_in(rest),
{
    lemma_semver();
    lemma_windows_in("SEMVER"@, events + rest);
    lemma_windows_in("SEMVER"@, rest);
    let none = Seq::<OsvEventView>::empty();
    assert(seq![w] + Seq::<RangeView>::empty() =~= seq![w]);
    lemma_ahead(seq![], events, none, seq![w], rest);
    assert(none + rest =~= rest);
}

/// A fix closes the window that the introduction before it opened.
pub proof fn a_fix_closes_the_window(
    from: Seq<char>,
    fix: Seq<char>,
    rest: Seq<OsvEventView>,
)
    requires
        from.len() > 0,
        fix.len() > 0,
    ensures
        windows_in(seq![introduced(from), fixed(fix)] + rest) == seq![until(from, fix)]
            + windows_in(rest),
{
    let (x, y) = (introduced(from), fixed(fix));
    lemma_two(x, y);
    assert(timeline_of(seq![], seq![x, y]).windows =~= seq![until(from, fix)]);
    lemma_closed(seq![x, y], until(from, fix), rest);
}

/// A last affected version closes the window and belongs to it.
pub proof fn a_last_affected_version_closes_the_window(
    from: Seq<char>,
    last: Seq<char>,
    rest: Seq<OsvEventView>,
)
    requires
        from.len() > 0,
        last.len() > 0,
    ensures
        windows_in(seq![introduced(from), last_affected(last)] + rest) == seq![
            through(from, last),
        ] + windows_in(rest),
{
    let (x, y) = (introduced(from), last_affected(last));
    lemma_two(x, y);
    assert(timeline_of(seq![], seq![x, y]).windows =~= seq![through(from, last)]);
    lemma_closed(seq![x, y], through(from, last), rest);
}

/// An introduction that nothing closes means still affected, and no event means
/// no window.
pub proof fn an_open_window_stays_open(from: Seq<char>)
    requires
        from.len() > 0,
    ensures
        windows_in(seq![introduced(from)]) == seq![onwards(from)],
        windows_in(seq![]).len() == 0,
{
    lemma_semver();
    let x = introduced(from);
    lemma_windows_in("SEMVER"@, seq![x]);
    lemma_windows_in("SEMVER"@, seq![]);
    lemma_two(x, x);
    assert(windows_in(seq![x]) =~= seq![onwards(from)]);
}

/// A bound without an introduction reaches back to the first release.
pub proof fn a_bound_alone_reaches_back(
    bound: Seq<char>,
    rest: Seq<OsvEventView>,
)
    requires
        bound.len() > 0,
    ensures
        windows_in(seq![fixed(bound)] + rest) == seq![until(seq![], bound)] + windows_in(rest),
        windows_in(seq![last_affected(bound)] + rest) == seq![through(seq![], bound)]
            + windows_in(rest),
{
    let (x, y) = (fixed(bound), last_affected(bound));
    lemma_two(x, y);
    lemma_two(y, x);
    assert(timeline_of(seq![], seq![x]).windows =~= seq![until(seq![], bound)]);
    assert(timeline_of(seq![], seq![y]).windows =~= seq![through(seq![], bound)]);
    lemma_closed(seq![x], until(seq![], bound), rest);
    lemma_closed(seq![y], through(seq![], bound), rest);
}

// ---- records ----

/// Whether a version lies in a window: not before it, before its fix, and not
/// after its last version. Where there is a fix, it decides.
pub open spec fn lies_in(version: Seq<char>, w: RangeView, e: Ecosystem) -> bool {
    &&& w.introduced.len() > 0 && w.introduced != "0"@ ==> strings_order(version, w.introduced, e)
        != Order::Less
    &&& w.fixed.len() > 0 ==> strings_order(version, w.fixed, e) == Order::Less
    &&& w.fixed.len() == 0 && w.last_affected.len() > 0 ==> strings_order(
        version,
        w.last_affected,
        e,
    ) != Order::Greater
}

/// Whether an advisory says that a package is affected at a version.
pub open spec fn strikes(a: AdvisoryView, key: KeyView, version: Seq<char>) -> bool {
    exists|i: int| #[trigger] entry_strikes(a.affected, i, key, version)
}

pub open spec fn entry_strikes(
    entries: Seq<AffectedView>,
    i: int,
    key: KeyView,
    version: Seq<char>,
) -> bool {
    0 <= i < entries.len() && entries[i].package == key && (entries[i].versions.contains(version)
        || exists|j: int|
        0 <= j < entries[i].ranges.len() && lies_in(
            version,
            #[trigger] entries[i].ranges[j],
            key.ecosystem,
        ))
}

proof fn lemma_in_range(w: RangeView, version: Seq<char>, e: Ecosystem)
    ensures
        in_range(w, version_of(version, e)) == lies_in(version, w, e),
{
    comparing_with_a_string_parses_it(version, w.introduced, e);
    comparing_with_a_string_parses_it(version, w.fixed, e);
    comparing_with_a_string_parses_it(version, w.last_affected, e);
}

proof fn lemma_strikes(a: AdvisoryView, key: KeyView, version: Seq<char>)
    ensures
        affects(a, key, version) == strikes(a, key, version),
{
    let parsed = version_of(version, key.ecosystem);
    assert forall|i: int| 0 <= i < a.affected.len() implies (entry_affects(
        #[trigger] a.affected[i],
        key,
        version,
        parsed,
    ) <==> entry_strikes(a.affected, i, key, version)) by {
        let entry = a.affected[i];
        if in_some_range(entry.ranges, parsed) {
            let j = choose|j: int| 0 <= j < entry.ranges.len() && in_range(
                #[trigger] entry.ranges[j],
                parsed,
            );
            lemma_in_range(entry.ranges[j], version, key.ecosystem);
            assert(lies_in(version, a.affected[i].ranges[j], key.ecosystem));
        }
        if exists|j: int|
            0 <= j < a.affected[i].ranges.len() && lies_in(
                version,
                #[trigger] a.affected[i].ranges[j],
                key.ecosystem,
            ) {
            let j = choose|j: int|
                0 <= j < a.affected[i].ranges.len() && lies_in(
                    version,
                    #[trigger] a.affected[i].ranges[j],
                    key.ecosystem,
                );
            lemma_in_range(entry.ranges[j], version, key.ecosystem);
            assert(in_range(entry.ranges[j], parsed));
        }
    }
    if affects(a, key, version) {
        let i = choose|i: int|
            0 <= i < a.affected.len() && entry_affects(
                #[trigger] a.affected[i],
                key,
                version,
                parsed,
            );
        assert(entry_strikes(a.affected, i, key, version));
    }
    if strikes(a, key, version) {
        let i = choose|i: int| #[trigger] entry_strikes(a.affected, i, key, version);
        assert(entry_affects(a.affected[i], key, version, parsed));
    }
}

/// Whether an entry of a record is about a package of an ecosystem.
pub open spec fn is_about(entry: OsvAffectedView, key: KeyView) -> bool {
    entry.name == key.name && entry.name.len() > 0 && entry.ecosystem == ecosystem_name(
        key.ecosystem,
    )
}

/// The entries of a record are converted one for one and in order, those of
/// another ecosystem left out.
pub proof fn entries_are_converted_one_for_one(
    a: Seq<OsvAffectedView>,
    b: Seq<OsvAffectedView>,
    want: Ecosystem,
)
    ensures
        affected_of(a + b, want) == affected_of(a, want) + affected_of(b, want),
    decreases b.len(),
{
    if b.len() == 0 {
        assert(a + b =~= a);
        assert(affected_of(a, want) + affected_of(b, want) =~= affected_of(a, want));
    } else {
        entries_are_converted_one_for_one(a, b.drop_last(), want);
        assert((a + b).drop_last() =~= a + b.drop_last());
        assert((a + b).last() == b.last());
        assert(affected_of(a + b, want) =~= affected_of(a, want) + affected_of(b, want));
    }
}

/// One entry of a record keeps its package, its windows and its versions.
pub proof fn an_entry_is_converted_whole(entry: OsvAffectedView, want: Ecosystem)
    ensures
        affected_of(seq![entry], want) == (if entry.name.len() > 0 && entry.ecosystem
            == ecosystem_name(want) {
            seq![
                AffectedView {
                    package: KeyView { ecosystem: want, name: entry.name },
                    ranges: windows_of(entry.ranges),
                    versions: entry.versions,
                },
            ]
        } else {
            seq![]
        }),
{
    let one = seq![entry];
    assert(one.drop_last() =~= seq![]);
    assert(affected_of(one.drop_last(), want) =~= seq![]);
    assert(affected_of(one, want) =~= (if is_wanted(entry, want) {
        seq![
            AffectedView {
                package: KeyView { ecosystem: want, name: entry.name },
                ranges: windows_of(entry.ranges),
                versions: entry.versions,
            },
        ]
    } else {
        seq![]
    }));
}

/// Whether an entry of a record says that a package is affected at a version.
pub open spec fn entry_says(entry: OsvAffectedView, key: KeyView, version: Seq<char>) -> bool {
    is_about(entry, key) && (entry.versions.contains(version) || exists|j: int|
        0 <= j < windows_of(entry.ranges).len() && lies_in(
            version,
            #[trigger] windows_of(entry.ranges)[j],
            key.ecosystem,
        ))
}

/// Whether a record says that a package is affected at a version: it was not
/// withdrawn, has an identifier, and one of its entries is about the package and
/// lists the version or has a window that it lies in.
pub open spec fn record_says(osv: OsvAdvisoryView, key: KeyView, version: Seq<char>) -> bool {
    osv.withdrawn.len() == 0 && osv.id.len() > 0 && exists|i: int|
        0 <= i < osv.affected.len() && entry_says(#[trigger] osv.affected[i], key, version)
}

proof fn lemma_converted(
    entries: Seq<OsvAffectedView>,
    want: Ecosystem,
    key: KeyView,
    version: Seq<char>,
)
    requires
        key.ecosystem == want,
    ensures
        (exists|i: int|
            0 <= i < entries.len() && entry_says(#[trigger] entries[i], key, version)) <==> (exists|
            i: int,
        | #[trigger] entry_strikes(affected_of(entries, want), i, key, version)),
    decreases entries.len(),
{
    let out = affected_of(entries, want);
    if entries.len() > 0 {
        let front = entries.drop_last();
        let last = entries.last();
        lemma_converted(front, want, key, version);
        let before = affected_of(front, want);
        if exists|i: int|
            0 <= i < entries.len() && entry_says(#[trigger] entries[i], key, version) {
            let i = choose|i: int|
                0 <= i < entries.len() && entry_says(#[trigger] entries[i], key, version);
            if i < front.len() {
                assert(entry_says(front[i], key, version));
                let k = choose|k: int| #[trigger] entry_strikes(before, k, key, version);
                assert(out[k] == before[k]);
                assert(entry_strikes(out, k, key, version));
            } else {
                let k = before.len() as int;
                assert(is_wanted(last, want));
                assert(out[k].package == key);
                assert(out[k].versions == last.versions && out[k].ranges == windows_of(
                    last.ranges,
                ));
                assert(entry_strikes(out, k, key, version));
            }
        }
        if exists|i: int| #[trigger] entry_strikes(out, i, key, version) {
            let k = choose|k: int| #[trigger] entry_strikes(out, k, key, version);
            if k < before.len() {
                assert(out[k] == before[k]);
                assert(entry_strikes(before, k, key, version));
                let i = choose|i: int|
                    0 <= i < front.len() && entry_says(#[trigger] front[i], key, version);
                assert(entry_says(entries[i], key, version));
            } else {
                let i = entries.len() - 1;
                assert(out[k].versions == last.versions && out[k].ranges == windows_of(
                    last.ranges,
                ));
                assert(entry_says(entries[i], key, version));
            }
        }
    } else {
        assert forall|i: int| !(#[trigger] entry_strikes(out, i, key, version)) by {}
    }
}

/// A record means what it says: converted for an ecosystem, it affects exactly
/// the packages of that ecosystem at the versions that it says.
pub proof fn a_record_means_what_it_says(osv: OsvAdvisoryView, key: KeyView, version: Seq<char>)
    ensures
        record_says(osv, key, version) <==> (model_of(osv, key.ecosystem) matches Some(a)
            && affects(a, key, version)),
{
    let want = key.ecosystem;
    let out = affected_of(osv.affected, want);
    lemma_converted(osv.affected, want, key, version);
    if let Some(a) = model_of(osv, want) {
        lemma_strikes(a, key, version);
        if strikes(a, key, version) {
            let i = choose|i: int| #[trigger] entry_strikes(a.affected, i, key, version);
            assert(entry_strikes(out, i, key, version));
        }
    }
    if record_says(osv, key, version) {
        let i = choose|i: int| #[trigger] entry_strikes(out, i, key, version);
        assert(out.len() > 0);
        let a = model_of(osv, want)->Some_0;
        assert(entry_strikes(a.affected, i, key, version));
    }
}

/// Every version that an entry lists is affected.
pub proof fn a_listed_version_is_affected(
    osv: OsvAdvisoryView,
    want: Ecosystem,
    i: int,
    j: int,
)
    requires
        osv.withdrawn.len() == 0,
        osv.id.len() > 0,
        0 <= i < osv.affected.len(),
        osv.affected[i].ecosystem == ecosystem_name(want),
        osv.affected[i].name.len() > 0,
        0 <= j < osv.affected[i].versions.len(),
    ensures
        model_of(osv, want) matches Some(a) && affects(
            a,
            KeyView { ecosystem: want, name: osv.affected[i].name },
            osv.affected[i].versions[j],
        ),
{
    let key = KeyView { ecosystem: want, name: osv.affected[i].name };
    let v = osv.affected[i].versions[j];
    assert(osv.affected[i].versions.contains(v));
    assert(entry_says(osv.affected[i], key, v));
    a_record_means_what_it_says(osv, key, v);
}

/// What else a record says is kept: its identifier, its other names, its
/// summary and its references.
pub proof fn a_record_keeps_its_text(osv: OsvAdvisoryView, want: Ecosystem)
    ensures
        model_of(osv, want) matches Some(a) ==> a.id == osv.id && a.aliases == osv.aliases
            && a.summary == osv.summary && a.references == osv.references && a.affected.len() > 0
            && (a.cvss_score, a.cvss_vector) == score_of(all_scored(osv.severity)),
        model_of(osv, want) is None <==> osv.withdrawn.len() > 0 || osv.id.len() == 0 || (forall|
            i: int,
        |
            0 <= i < osv.affected.len() ==> (#[trigger] osv.affected[i]).name.len() == 0
                || osv.affected[i].ecosystem != ecosystem_name(want)),
{
    lemma_some_wanted(osv.affected, want);
}

proof fn lemma_some_wanted(entries: Seq<OsvAffectedView>, want: Ecosystem)
    ensures
        affected_of(entries, want).len() == 0 <==> forall|i: int|
            0 <= i < entries.len() ==> (#[trigger] entries[i]).name.len() == 0
                || entries[i].ecosystem != ecosystem_name(want),
    decreases entries.len(),
{
    if entries.len() > 0 {
        let front = entries.drop_last();
        lemma_some_wanted(front, want);
        let n = entries.len() - 1;
        if is_wanted(entries[n], want) {
            assert(affected_of(entries, want).len() > 0);
        } else {
            if forall|i: int|
                0 <= i < front.len() ==> (#[trigger] front[i]).name.len() == 0
                    || front[i].ecosystem != ecosystem_name(want) {
                assert forall|i: int| 0 <= i < entries.len() implies (
                #[trigger] entries[i]).name.len() == 0 || entries[i].ecosystem != ecosystem_name(
                    want,
                ) by {
                    if i < n {
                        assert(entries[i] == front[i]);
                    }
                }
            } else {
                let i = choose|i: int|
                    0 <= i < front.len() && !((#[trigger] front[i]).name.len() == 0
                        || front[i].ecosystem != ecosystem_name(want));
                assert(entries[i] == front[i]);
            }
        }
    }
}

// ---- severity ----

/// Without a valid CVSS v3 vector the first CVSS v4 one decides: its score where
/// it is valid, and no score otherwise.
pub proof fn the_first_v4_decides_where_no_v3_is_valid(severities: Seq<ScoredView>, k: int)
    requires
        forall|i: int|
            0 <= i < severities.len() && alike((#[trigger] severities[i]).kind, "CVSS_V3"@)
                ==> severities[i].tenths is None,
        0 <= k <= severities.len(),
        forall|i: int|
            0 <= i < k ==> !alike((#[trigger] severities[i]).kind, "CVSS_V4"@),
        k < severities.len() ==> alike(severities[k].kind, "CVSS_V4"@),
    ensures
        score_of(severities) == (if k < severities.len() && severities[k].tenths is Some {
            (severities[k].tenths->Some_0, severities[k].vector)
        } else {
            (0u16, Seq::<char>::empty())
        }),
{
    lemma_no_kind(severities);
    lemma_kind_at(severities, k);
}

proof fn lemma_no_kind(severities: Seq<ScoredView>)
    requires
        forall|i: int|
            0 <= i < severities.len() && alike((#[trigger] severities[i]).kind, "CVSS_V3"@)
                ==> severities[i].tenths is None,
    ensures
        first_of_kind(severities, "CVSS_V3"@, true) is None,
    decreases severities.len(),
{
    if severities.len() > 0 {
        let front = severities.drop_last();
        assert forall|i: int|
            0 <= i < front.len() && alike((#[trigger] front[i]).kind, "CVSS_V3"@) implies
            front[i].tenths is None by {
            assert(front[i] == severities[i]);
        }
        lemma_no_kind(front);
        assert(severities.last() == severities[severities.len() - 1]);
    }
}

proof fn lemma_kind_at(severities: Seq<ScoredView>, k: int)
    requires
        0 <= k <= severities.len(),
        forall|i: int|
            0 <= i < k ==> !alike((#[trigger] severities[i]).kind, "CVSS_V4"@),
        k < severities.len() ==> alike(severities[k].kind, "CVSS_V4"@),
    ensures
        first_of_kind(severities, "CVSS_V4"@, false) == (if k < severities.len() {
            Some(severities[k])
        } else {
            None
        }),
    decreases severities.len(),
{
    if severities.len() > 0 {
        let front = severities.drop_last();
        let last = severities[severities.len() - 1];
        if k < severities.len() - 1 {
            assert(front[k] == severities[k]);
            assert forall|i: int| 0 <= i < k implies !alike(
                (#[trigger] front[i]).kind,
                "CVSS_V4"@,
            ) by {
                assert(front[i] == severities[i]);
            }
            lemma_kind_at(front, k);
        } else {
            assert forall|i: int| 0 <= i < front.len() implies !alike(
                (#[trigger] front[i]).kind,
                "CVSS_V4"@,
            ) by {
                assert(front[i] == severities[i]);
            }
            lemma_kind_at(front, front.len() as int);
            assert(severities.last() == last);
        }
    }
}

/// How severe an advisory is goes by the CVSS bands, in tenths of a score;
/// malware is always critical.
pub proof fn severity_goes_by_the_bands(a: AdvisoryView)
    ensures
        is_malicious(a) ==> severity_of(a) == Severity::Critical,
        !is_malicious(a) ==> {
            &&& severity_of(a) == Severity::Critical <==> a.cvss_score >= 90
            &&& severity_of(a) == Severity::High <==> 70 <= a.cvss_score < 90
            &&& severity_of(a) == Severity::Medium <==> 40 <= a.cvss_score < 70
            &&& severity_of(a) == Severity::Low <==> 0 < a.cvss_score < 40
            &&& severity_of(a) == Severity::Unknown <==> a.cvss_score == 0
        },
        is_malicious(a) <==> "MAL-"@.is_prefix_of(a.id) || exists|i: int|
            0 <= i < a.aliases.len() && "MAL-"@.is_prefix_of(#[trigger] a.aliases[i]),
{
}

// ---- findings ----

/// An advisory is looked up for exactly the packages that its entries are
/// about, and nothing else is.
pub proof fn an_advisory_is_found_by_its_packages(all: Seq<AdvisoryView>, key: KeyView)
    ensures
        forall|k: int, i: int|
            0 <= k < all.len() && 0 <= i < all[k].affected.len() && (
            #[trigger] all[k].affected[i]).package == key ==> lookup_of(all, key).contains(all[k]),
        forall|n: int|
            0 <= n < lookup_of(all, key).len() ==> all.contains(
                #[trigger] lookup_of(all, key)[n],
            ) && mentions(lookup_of(all, key)[n].affected, key) > 0,
    decreases all.len(),
{
    if all.len() > 0 {
        let front = all.drop_last();
        let last = all.last();
        an_advisory_is_found_by_its_packages(front, key);
        let before = lookup_of(front, key);
        let more = Seq::new(mentions(last.affected, key), |i: int| last);
        let out = lookup_of(all, key);
        assert(out == before + more);
        assert forall|k: int, i: int|
            0 <= k < all.len() && 0 <= i < all[k].affected.len() && (
            #[trigger] all[k].affected[i]).package == key implies out.contains(all[k]) by {
            if k < front.len() {
                assert(front[k].affected[i].package == key);
                assert(before.contains(front[k]));
                let n = choose|n: int| 0 <= n < before.len() && before[n] == front[k];
                assert(out[n] == all[k]);
            } else {
                lemma_mentioned(last.affected, key, i);
                assert(out[before.len() as int] == last);
            }
        }
        assert forall|n: int| 0 <= n < out.len() implies all.contains(#[trigger] out[n])
            && mentions(out[n].affected, key) > 0 by {
            if n < before.len() {
                assert(out[n] == before[n]);
                let k = choose|k: int| 0 <= k < front.len() && front[k] == before[n];
                assert(all[k] == out[n]);
            } else {
                assert(out[n] == last);
                assert(all[all.len() - 1] == last);
            }
        }
    }
}

proof fn lemma_mentioned(affected: Seq<AffectedView>, key: KeyView, i: int)
    requires
        0 <= i < affected.len(),
        affected[i].package == key,
    ensures
        mentions(affected, key) > 0,
    decreases affected.len(),
{
    if i < affected.len() - 1 {
        lemma_mentioned(affected.drop_last(), key, i);
    }
}

proof fn lemma_hits_are(found: Seq<AdvisoryView>, key: KeyView, version: Seq<char>)
    ensures
        forall|x: AdvisoryView|
            hits_of(found, key, version).contains(x) <==> #[trigger] found.contains(x) && affects(
                x,
                key,
                version,
            ),
    decreases found.len(),
{
    let out = hits_of(found, key, version);
    if found.len() > 0 {
        let front = found.drop_last();
        lemma_hits_are(front, key, version);
        let before = hits_of(front, key, version);
        assert forall|x: AdvisoryView|
            out.contains(x) <==> #[trigger] found.contains(x) && affects(x, key, version) by {
            if out.contains(x) {
                let i = choose|i: int| 0 <= i < out.len() && out[i] == x;
                if i < before.len() {
                    assert(before[i] == x);
                    assert(before.contains(x));
                    assert(front.contains(x));
                    let k = choose|k: int| 0 <= k < front.len() && front[k] == x;
                    assert(found[k] == x);
                } else {
                    assert(found[found.len() - 1] == x);
                }
            }
            if found.contains(x) && affects(x, key, version) {
                let k = choose|k: int| 0 <= k < found.len() && found[k] == x;
                if k < front.len() {
                    assert(front[k] == x);
                    assert(front.contains(x));
                    assert(before.contains(x));
                    let i = choose|i: int| 0 <= i < before.len() && before[i] == x;
                    assert(out[i] == x);
                } else {
                    assert(out[before.len() as int] == x);
                }
            }
        }
    }
}

/// What applies to a package is every advisory that says so, and no other.
pub proof fn what_applies_is_what_says_so(
    all: Seq<AdvisoryView>,
    package: PackageView,
    a: AdvisoryView,
)
    ensures
        applicable_of(all, package).contains(a) <==> all.contains(a) && strikes(
            a,
            package.key,
            package.version,
        ),
{
    broadcast use vstd::seq_lib::group_to_multiset_ensures;

    let key = package.key;
    let found = lookup_of(all, key);
    let hits = hits_of(found, key, package.version);
    lemma_hits_are(found, key, package.version);
    hits_are_sorted(hits);
    lemma_strikes(a, key, package.version);
    an_advisory_is_found_by_its_packages(all, key);
    let out = applicable_of(all, package);
    assert(out.contains(a) <==> hits.contains(a)) by {
        assert(out.to_multiset().count(a) == hits.to_multiset().count(a));
    }
    if all.contains(a) && strikes(a, key, package.version) {
        let k = choose|k: int| 0 <= k < all.len() && all[k] == a;
        let i = choose|i: int| #[trigger] entry_strikes(a.affected, i, key, package.version);
        assert(all[k].affected[i].package == key);
        assert(found.contains(all[k]));
    }
    if hits.contains(a) {
        assert(found.contains(a));
        let n = choose|n: int| 0 <= n < found.len() && found[n] == a;
        assert(all.contains(found[n]));
    }
}

/// Findings add up: each package is judged on its own, in order.
pub proof fn findings_add_up(
    all: Seq<AdvisoryView>,
    a: Seq<ExtractedView>,
    b: Seq<ExtractedView>,
)
    ensures
        findings_of(all, a + b) == findings_of(all, a) + findings_of(all, b),
    decreases b.len(),
{
    if b.len() == 0 {
        assert(a + b =~= a);
        assert(findings_of(all, a) + findings_of(all, b) =~= findings_of(all, a));
    } else {
        findings_add_up(all, a, b.drop_last());
        assert((a + b).drop_last() =~= a + b.drop_last());
        assert((a + b).last() == b.last());
        assert(findings_of(all, a + b) =~= findings_of(all, a) + findings_of(all, b));
    }
}

/// A package gives one finding where some advisory says that it is affected, and
/// none otherwise; the finding keeps all that is known about the package, and
/// names exactly the advisories that say so.
pub proof fn an_affected_package_gives_a_finding(all: Seq<AdvisoryView>, p: ExtractedView)
    ensures
        ({
            let found = findings_of(all, seq![p]);
            &&& found.len() == (if exists|k: int|
                0 <= k < all.len() && strikes(
                    #[trigger] all[k],
                    p.package.key,
                    p.package.version,
                ) {
                1nat
            } else {
                0nat
            })
            &&& found.len() == 1 ==> {
                let f = found[0];
                &&& f.package == p.package && f.evidence == p.evidence && f.declared == p.declared
                &&& f.paths == p.paths && f.from_range == p.from_range && f.dep_groups
                    == p.dep_groups
                &&& forall|a: AdvisoryView|
                    #[trigger] f.advisories.contains(a) <==> all.contains(a) && strikes(
                        a,
                        p.package.key,
                        p.package.version,
                    )
            }
        }),
{
    let one = seq![p];
    let found = findings_of(all, one);
    let hits = applicable_of(all, p.package);
    assert(one.drop_last() =~= seq![]);
    assert(findings_of(all, one.drop_last()) =~= seq![]);
    assert forall|a: AdvisoryView|
        #[trigger] hits.contains(a) <==> all.contains(a) && strikes(
            a,
            p.package.key,
            p.package.version,
        ) by {
        what_applies_is_what_says_so(all, p.package, a);
    }
    if exists|k: int|
        0 <= k < all.len() && strikes(#[trigger] all[k], p.package.key, p.package.version) {
        let k = choose|k: int|
            0 <= k < all.len() && strikes(#[trigger] all[k], p.package.key, p.package.version);
        assert(all.contains(all[k]));
        assert(hits.contains(all[k]));
    } else if hits.len() > 0 {
        assert(hits.contains(hits[0]));
        let k = choose|k: int| 0 <= k < all.len() && all[k] == hits[0];
        assert(strikes(all[k], p.package.key, p.package.version));
    }
}

// ---- fixes ----

proof fn lemma_range_fixes(ranges: Seq<RangeView>, v: Seq<char>)
    ensures
        range_fixes(ranges).contains(v) <==> v.len() > 0 && exists|j: int|
            0 <= j < ranges.len() && (#[trigger] ranges[j]).fixed == v,
    decreases ranges.len(),
{
    let out = range_fixes(ranges);
    if ranges.len() > 0 {
        let front = ranges.drop_last();
        lemma_range_fixes(front, v);
        let before = range_fixes(front);
        if out.contains(v) {
            let i = choose|i: int| 0 <= i < out.len() && out[i] == v;
            if i < before.len() {
                assert(before[i] == v);
                let j = choose|j: int| 0 <= j < front.len() && (#[trigger] front[j]).fixed == v;
                assert(ranges[j].fixed == v);
            } else {
                assert(ranges[ranges.len() - 1].fixed == v);
            }
        }
        if v.len() > 0 && exists|j: int|
            0 <= j < ranges.len() && (#[trigger] ranges[j]).fixed == v {
            let j = choose|j: int| 0 <= j < ranges.len() && (#[trigger] ranges[j]).fixed == v;
            if j < front.len() {
                assert(front[j].fixed == v);
                let i = choose|i: int| 0 <= i < before.len() && before[i] == v;
                assert(out[i] == v);
            } else {
                assert(out[before.len() as int] == v);
            }
        }
    }
}

/// Whether an advisory names a fix for a package.
pub open spec fn names_fix(a: AdvisoryView, key: KeyView, v: Seq<char>) -> bool {
    v.len() > 0 && exists|i: int, j: int|
        0 <= i < a.affected.len() && 0 <= j < a.affected[i].ranges.len() && a.affected[i].package
            == key && (#[trigger] a.affected[i].ranges[j]).fixed == v
}

proof fn lemma_entry_fixes(a: AdvisoryView, n: nat, key: KeyView, v: Seq<char>)
    requires
        n <= a.affected.len(),
    ensures
        entry_fixes(a.affected.take(n as int), key).contains(v) <==> v.len() > 0 && exists|
            i: int,
            j: int,
        |
            0 <= i < n && 0 <= j < a.affected[i].ranges.len() && a.affected[i].package == key && (
            #[trigger] a.affected[i].ranges[j]).fixed == v,
    decreases n,
{
    let out = entry_fixes(a.affected.take(n as int), key);
    if n > 0 {
        let m = (n - 1) as nat;
        assert(a.affected.take(n as int).drop_last() =~= a.affected.take(m as int));
        let last = a.affected[m as int];
        assert(a.affected.take(n as int).last() == last);
        lemma_entry_fixes(a, m, key, v);
        lemma_range_fixes(last.ranges, v);
        let before = entry_fixes(a.affected.take(m as int), key);
        let more = range_fixes(last.ranges);
        if out.contains(v) {
            let k = choose|k: int| 0 <= k < out.len() && out[k] == v;
            if k < before.len() {
                assert(before[k] == v);
                assert(before.contains(v));
                let (i, j) = choose|i: int, j: int|
                    0 <= i < m && 0 <= j < a.affected[i].ranges.len() && a.affected[i].package
                        == key && (#[trigger] a.affected[i].ranges[j]).fixed == v;
                assert(a.affected[i].ranges[j].fixed == v);
            } else {
                assert(more[k - before.len()] == v);
                assert(more.contains(v));
                let j = choose|j: int|
                    0 <= j < last.ranges.len() && (#[trigger] last.ranges[j]).fixed == v;
                assert(a.affected[m as int].ranges[j].fixed == v);
            }
        }
        if v.len() > 0 && exists|i: int, j: int|
            0 <= i < n && 0 <= j < a.affected[i].ranges.len() && a.affected[i].package == key && (
            #[trigger] a.affected[i].ranges[j]).fixed == v {
            let (i, j) = choose|i: int, j: int|
                0 <= i < n && 0 <= j < a.affected[i].ranges.len() && a.affected[i].package == key
                    && (#[trigger] a.affected[i].ranges[j]).fixed == v;
            if i < m {
                assert(a.affected[i].ranges[j].fixed == v);
                assert(before.contains(v));
                let k = choose|k: int| 0 <= k < before.len() && before[k] == v;
                assert(out[k] == v);
            } else {
                assert(last.ranges[j].fixed == v);
                assert(more.contains(v));
                let k = choose|k: int| 0 <= k < more.len() && more[k] == v;
                assert(out[before.len() + k] == v);
            }
        }
    }
}

proof fn lemma_above(fixes: Seq<Seq<char>>, package: PackageView, v: Seq<char>)
    ensures
        crate::matcher::above(fixes, package).contains(v) <==> fixes.contains(v) && is_above(
            v,
            package,
        ),
    decreases fixes.len(),
{
    let out = crate::matcher::above(fixes, package);
    if fixes.len() > 0 {
        let front = fixes.drop_last();
        lemma_above(front, package, v);
        let before = crate::matcher::above(front, package);
        if out.contains(v) {
            let k = choose|k: int| 0 <= k < out.len() && out[k] == v;
            if k < before.len() {
                assert(before[k] == v);
                assert(before.contains(v));
                let i = choose|i: int| 0 <= i < front.len() && front[i] == v;
                assert(fixes[i] == v);
            } else {
                assert(fixes[fixes.len() - 1] == v);
            }
        }
        if fixes.contains(v) && is_above(v, package) {
            let i = choose|i: int| 0 <= i < fixes.len() && fixes[i] == v;
            if i < front.len() {
                assert(front[i] == v);
                assert(front.contains(v));
                let k = choose|k: int| 0 <= k < before.len() && before[k] == v;
                assert(out[k] == v);
            } else {
                assert(out[before.len() as int] == v);
            }
        }
    }
}

/// What may fix a package is every version above the installed one that an
/// advisory on it names as a fix, and no other; without one there is no fix.
pub proof fn a_fix_is_one_that_was_published(
    all: Seq<AdvisoryView>,
    package: PackageView,
    advisories: Seq<AdvisoryView>,
    v: Seq<char>,
)
    ensures
        candidates_of(advisories, package).contains(v) <==> strings_order(
            package.version,
            v,
            package.key.ecosystem,
        ) == Order::Less && exists|k: int|
            0 <= k < advisories.len() && names_fix(#[trigger] advisories[k], package.key, v),
        fix_of(all, package, advisories) == FixView::Absent <==> candidates_of(
            advisories,
            package,
        ).len() == 0,
        fix_of(all, package, advisories) == FixView::Clears(v) ==> candidates_of(
            advisories,
            package,
        ).contains(v),
    decreases advisories.len(),
{
    if fix_of(all, package, advisories) == FixView::Clears(v) {
        crate::matcher::a_fix_is_a_clear_candidate(all, package, advisories, v);
    }
    lemma_candidates(advisories, package, v);
}

proof fn lemma_candidates(advisories: Seq<AdvisoryView>, package: PackageView, v: Seq<char>)
    ensures
        candidates_of(advisories, package).contains(v) <==> strings_order(
            package.version,
            v,
            package.key.ecosystem,
        ) == Order::Less && exists|k: int|
            0 <= k < advisories.len() && names_fix(#[trigger] advisories[k], package.key, v),
    decreases advisories.len(),
{
    let out = candidates_of(advisories, package);
    if advisories.len() > 0 {
        let front = advisories.drop_last();
        let last = advisories.last();
        lemma_candidates(front, package, v);
        let before = candidates_of(front, package);
        let fixes = entry_fixes(last.affected, package.key);
        let more = crate::matcher::above(fixes, package);
        lemma_above(fixes, package, v);
        assert(last.affected.take(last.affected.len() as int) =~= last.affected);
        lemma_entry_fixes(last, last.affected.len(), package.key, v);
        assert(fixes.contains(v) <==> names_fix(last, package.key, v));
        if out.contains(v) {
            let i = choose|i: int| 0 <= i < out.len() && out[i] == v;
            if i < before.len() {
                assert(before[i] == v);
                assert(before.contains(v));
                let k = choose|k: int|
                    0 <= k < front.len() && names_fix(#[trigger] front[k], package.key, v);
                assert(names_fix(advisories[k], package.key, v));
            } else {
                assert(more[i - before.len()] == v);
                assert(more.contains(v));
                assert(names_fix(advisories[advisories.len() - 1], package.key, v));
            }
        }
        if is_above(v, package) && exists|k: int|
            0 <= k < advisories.len() && names_fix(#[trigger] advisories[k], package.key, v) {
            let k = choose|k: int|
                0 <= k < advisories.len() && names_fix(#[trigger] advisories[k], package.key, v);
            if k < front.len() {
                assert(names_fix(front[k], package.key, v));
                assert(before.contains(v));
                let i = choose|i: int| 0 <= i < before.len() && before[i] == v;
                assert(out[i] == v);
            } else {
                assert(more.contains(v));
                let i = choose|i: int| 0 <= i < more.len() && more[i] == v;
                assert(out[before.len() + i] == v);
            }
        }
    }
}

} // verus!
