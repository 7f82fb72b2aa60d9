//! Deciding which advisories apply to a project's dependencies.
//!
//! Only the range arithmetic is here; version *ordering* lives in
//! [`crate::version`].
use crate::index::{lookup_of, mentions, Index};
use crate::model::{
    copy_paths, copy_site, entry_fixes, severity_of, severity_rank, Advisory, AdvisoryView,
    AffectedRange, AffectedView, ExtractedPackage, ExtractedView, Finding, FindingView, Fix,
    FixView, KeyView, Package, PackageKey, PackageView, RangeView,
};
use crate::order::{compare_text, text_order, Order};
use crate::text::{contains, copy_strings, same};
use crate::version::{strings_order, version_like, version_of, version_order, Version, VersionView};
use vstd::prelude::*;

verus! {

/// The sentinel for "affected since the first release". It is not a version
/// string and must not be compared as one.
pub const INTRODUCED_FROM_THE_BEGINNING: &'static str = "0";

// ---- what applies ----

/// Whether a version falls within one affected range.
///
/// Ranges are half-open: affected at or after `introduced`, and before
/// `fixed`. A version equal to `fixed` is not affected, while one equal to
/// `introduced` is. `last_affected` names the final bad version rather than
/// the first good one, so it is included; where there is a `fixed`, it decides.
pub open spec fn in_range(range: RangeView, version: VersionView) -> bool {
    let starts = range.introduced.len() > 0 && range.introduced != INTRODUCED_FROM_THE_BEGINNING@;
    &&& starts ==> version_order(version, version_like(version, range.introduced)) != Order::Less
    &&& if range.fixed.len() > 0 {
        version_order(version, version_like(version, range.fixed)) == Order::Less
    } else if range.last_affected.len() > 0 {
        version_order(version, version_like(version, range.last_affected)) != Order::Greater
    } else {
        true
    }
}

pub open spec fn in_some_range(ranges: Seq<RangeView>, version: VersionView) -> bool {
    exists|i: int| 0 <= i < ranges.len() && in_range(#[trigger] ranges[i], version)
}

/// Whether one entry of an advisory covers a package at a version. An explicit
/// version list is authoritative for the versions it names.
pub open spec fn entry_affects(
    entry: AffectedView,
    key: KeyView,
    raw: Seq<char>,
    version: VersionView,
) -> bool {
    entry.package == key && (entry.versions.contains(raw) || in_some_range(entry.ranges, version))
}

/// Whether an advisory covers a package at a version.
pub open spec fn affects(advisory: AdvisoryView, key: KeyView, raw: Seq<char>) -> bool {
    exists|i: int|
        0 <= i < advisory.affected.len() && entry_affects(
            #[trigger] advisory.affected[i],
            key,
            raw,
            version_of(raw, key.ecosystem),
        )
}

/// Whether any advisory still affects a package at a version.
pub open spec fn affected_at_of(all: Seq<AdvisoryView>, key: KeyView, raw: Seq<char>) -> bool {
    exists|i: int|
        0 <= i < lookup_of(all, key).len() && affects(#[trigger] lookup_of(all, key)[i], key, raw)
}

/// The advisories of a list that cover a package at a version.
pub open spec fn hits_of(found: Seq<AdvisoryView>, key: KeyView, raw: Seq<char>) -> Seq<
    AdvisoryView,
>
    decreases found.len(),
{
    if found.len() == 0 {
        seq![]
    } else if affects(found.last(), key, raw) {
        hits_of(found.drop_last(), key, raw).push(found.last())
    } else {
        hits_of(found.drop_last(), key, raw)
    }
}

/// Whether one advisory is listed before another: the more severe first, and
/// by identifier where they are as severe.
pub open spec fn precedes(a: AdvisoryView, b: AdvisoryView) -> bool {
    let (x, y) = (severity_rank(severity_of(a)), severity_rank(severity_of(b)));
    x > y || (x == y && text_order(a.id, b.id) == Order::Less)
}

/// A sorted list with one more, after everything it does not precede.
pub open spec fn placed(sorted: Seq<AdvisoryView>, x: AdvisoryView) -> Seq<AdvisoryView>
    decreases sorted.len(),
{
    if sorted.len() > 0 && precedes(x, sorted.last()) {
        placed(sorted.drop_last(), x).push(sorted.last())
    } else {
        sorted.push(x)
    }
}

/// The list in order, equals staying as they were.
pub open spec fn sorted_hits(hits: Seq<AdvisoryView>) -> Seq<AdvisoryView>
    decreases hits.len(),
{
    if hits.len() == 0 {
        seq![]
    } else {
        placed(sorted_hits(hits.drop_last()), hits.last())
    }
}

/// The advisories that apply to a package, most severe first.
pub open spec fn applicable_of(all: Seq<AdvisoryView>, package: PackageView) -> Seq<AdvisoryView> {
    sorted_hits(hits_of(lookup_of(all, package.key), package.key, package.version))
}

// ---- what fixes it ----

/// The fixes some advisories name for a package, above the installed version.
pub open spec fn candidates_of(advisories: Seq<AdvisoryView>, package: PackageView) -> Seq<
    Seq<char>,
>
    decreases advisories.len(),
{
    if advisories.len() == 0 {
        seq![]
    } else {
        candidates_of(advisories.drop_last(), package) + above(
            entry_fixes(advisories.last().affected, package.key),
            package,
        )
    }
}

/// The versions of a list that are above the installed one.
pub open spec fn above(fixes: Seq<Seq<char>>, package: PackageView) -> Seq<Seq<char>>
    decreases fixes.len(),
{
    if fixes.len() == 0 {
        seq![]
    } else if is_above(fixes.last(), package) {
        above(fixes.drop_last(), package).push(fixes.last())
    } else {
        above(fixes.drop_last(), package)
    }
}

pub open spec fn is_above(version: Seq<char>, package: PackageView) -> bool {
    strings_order(package.version, version, package.key.ecosystem) == Order::Less
}

/// Versions in ascending order with one more, after its equals.
pub open spec fn ranked(
    sorted: Seq<Seq<char>>,
    x: Seq<char>,
    e: crate::model::Ecosystem,
) -> Seq<Seq<char>>
    decreases sorted.len(),
{
    if sorted.len() > 0 && strings_order(x, sorted.last(), e) == Order::Less {
        ranked(sorted.drop_last(), x, e).push(sorted.last())
    } else {
        sorted.push(x)
    }
}

/// Versions in ascending order, equals staying as they were.
pub open spec fn ascending(versions: Seq<Seq<char>>, e: crate::model::Ecosystem) -> Seq<Seq<char>>
    decreases versions.len(),
{
    if versions.len() == 0 {
        seq![]
    } else {
        ranked(ascending(versions.drop_last(), e), versions.last(), e)
    }
}

/// The first of each run of equal versions.
pub open spec fn distinct(sorted: Seq<Seq<char>>, e: crate::model::Ecosystem) -> Seq<Seq<char>>
    decreases sorted.len(),
{
    if sorted.len() == 0 {
        seq![]
    } else {
        let kept = distinct(sorted.drop_last(), e);
        if kept.len() > 0 && strings_order(sorted.last(), kept.last(), e) == Order::Equal {
            kept
        } else {
            kept.push(sorted.last())
        }
    }
}

/// The first version no advisory affects.
pub open spec fn first_clear(
    all: Seq<AdvisoryView>,
    key: KeyView,
    versions: Seq<Seq<char>>,
) -> Option<Seq<char>>
    decreases versions.len(),
{
    if versions.len() == 0 {
        None
    } else {
        match first_clear(all, key, versions.drop_last()) {
            Some(v) => Some(v),
            None => if affected_at_of(all, key, versions.last()) {
                None
            } else {
                Some(versions.last())
            },
        }
    }
}

/// What upgrading a package would do.
pub open spec fn fix_of(
    all: Seq<AdvisoryView>,
    package: PackageView,
    advisories: Seq<AdvisoryView>,
) -> FixView {
    let candidates = candidates_of(advisories, package);
    let e = package.key.ecosystem;
    if candidates.len() == 0 {
        FixView::Absent
    } else {
        match first_clear(all, package.key, distinct(ascending(candidates, e), e)) {
            Some(v) => FixView::Clears(v),
            None => FixView::Partial,
        }
    }
}

/// The finding a package gives, where an advisory applies to it.
pub open spec fn finding_of(all: Seq<AdvisoryView>, p: ExtractedView) -> FindingView {
    FindingView {
        package: p.package,
        advisories: applicable_of(all, p.package),
        evidence: p.evidence,
        declared: p.declared,
        paths: p.paths,
        from_range: p.from_range,
        dep_groups: p.dep_groups,
        fix: fix_of(all, p.package, applicable_of(all, p.package)),
    }
}

/// Every dependency that an advisory applies to.
pub open spec fn findings_of(all: Seq<AdvisoryView>, packages: Seq<ExtractedView>) -> Seq<
    FindingView,
>
    decreases packages.len(),
{
    if packages.len() == 0 {
        seq![]
    } else if applicable_of(all, packages.last().package).len() == 0 {
        findings_of(all, packages.drop_last())
    } else {
        findings_of(all, packages.drop_last()).push(finding_of(all, packages.last()))
    }
}

// ---- code ----

/// Whether a version falls within one affected range.
pub fn within(range: &AffectedRange, version: &Version) -> (r: bool)
    ensures
        r == in_range(range.deep_view(), version.deep_view()),
{
    if !range.introduced.as_str().is_empty() && !same(
        range.introduced.as_str(),
        INTRODUCED_FROM_THE_BEGINNING,
    ) && version.against(range.introduced.as_str()) == Order::Less {
        return false;
    }
    if !range.fixed.as_str().is_empty() {
        return version.against(range.fixed.as_str()) == Order::Less;
    }
    if !range.last_affected.as_str().is_empty() {
        return version.against(range.last_affected.as_str()) != Order::Greater;
    }
    true
}

/// Whether an advisory covers a package at a version. The version is taken
/// parsed as well, so that it is parsed once for many advisories.
pub fn covers(advisory: &Advisory, key: &PackageKey, raw: &str, version: &Version) -> (r: bool)
    requires
        version.deep_view() == version_of(raw@, key.ecosystem),
    ensures
        r == affects(advisory.deep_view(), key.deep_view(), raw@),
{
    let ghost entries = advisory.deep_view().affected;
    let ghost k = key.deep_view();
    let ghost v = version.deep_view();
    let mut i: usize = 0;
    while i < advisory.affected.len()
        invariant
            i <= advisory.affected@.len(),
            entries == advisory.deep_view().affected,
            k == key.deep_view(),
            v == version.deep_view(),
            v == version_of(raw@, key.ecosystem),
            forall|j: int| 0 <= j < i ==> !entry_affects(#[trigger] entries[j], k, raw@, v),
        decreases advisory.affected@.len() - i,
    {
        let entry = &advisory.affected[i];
        proof {
            assert(entries[i as int] == entry.deep_view());
        }
        if entry.package.equals(key) {
            if contains(&entry.versions, raw) {
                proof {
                    assert(entry_affects(entries[i as int], k, raw@, v));
                }
                return true;
            }
            let mut j: usize = 0;
            while j < entry.ranges.len()
                invariant
                    i < advisory.affected@.len(),
                    entry == &advisory.affected@[i as int],
                    entries == advisory.deep_view().affected,
                    entries[i as int] == entry.deep_view(),
                    entries[i as int].package == k,
                    k == key.deep_view(),
                    v == version.deep_view(),
                    v == version_of(raw@, key.ecosystem),
                    j <= entry.ranges@.len(),
                    forall|m: int|
                        0 <= m < j ==> !in_range(#[trigger] entry.deep_view().ranges[m], v),
                decreases entry.ranges@.len() - j,
            {
                if within(&entry.ranges[j], version) {
                    proof {
                        assert(in_range(entry.deep_view().ranges[j as int], v));
                        assert(in_some_range(entries[i as int].ranges, v));
                        assert(entry_affects(entries[i as int], k, raw@, v));
                    }
                    return true;
                }
                j += 1;
            }
            proof {
                assert(!in_some_range(entries[i as int].ranges, v));
            }
        }
        i += 1;
    }
    false
}

/// Matches extracted packages against an index.
pub struct Matcher<'a> {
    pub index: &'a Index,
}

fn is_before(a: &Advisory, b: &Advisory) -> (r: bool)
    ensures
        r == precedes(a.deep_view(), b.deep_view()),
{
    let x: u8 = a.severity().rank();
    let y: u8 = b.severity().rank();
    x > y || (x == y && compare_text(a.id.as_str(), b.id.as_str()) == Order::Less)
}

fn place(sorted: &mut Vec<Advisory>, x: Advisory)
    ensures
        final(sorted).deep_view() == placed(old(sorted).deep_view(), x.deep_view()),
{
    let ghost all = sorted.deep_view();
    let ghost it = x.deep_view();
    let mut at: usize = sorted.len();
    proof {
        assert(all.take(at as int) =~= all);
        assert(placed(all, it) =~= placed(all.take(at as int), it) + all.skip(at as int));
    }
    while at > 0 && is_before(&x, &sorted[at - 1])
        invariant
            at <= sorted@.len(),
            all == sorted.deep_view(),
            it == x.deep_view(),
            placed(all, it) == placed(all.take(at as int), it) + all.skip(at as int),
        decreases at,
    {
        proof {
            assert(all.take(at as int).last() == sorted@[at - 1].deep_view());
            assert(all.take(at as int).drop_last() =~= all.take(at - 1));
            assert(placed(all.take(at - 1), it).push(all[at - 1]) + all.skip(at as int) =~= placed(
                all.take(at - 1),
                it,
            ) + all.skip(at - 1));
        }
        at -= 1;
    }
    proof {
        if at > 0 {
            assert(all.take(at as int).last() == sorted@[at - 1].deep_view());
        }
        assert(placed(all.take(at as int), it) == all.take(at as int).push(it));
    }
    sorted.insert(at, x);
    proof {
        assert(sorted.deep_view() =~= all.take(at as int).push(it) + all.skip(at as int));
    }
}

/// A version that would fix a package, as written and as parsed.
struct Candidate {
    parsed: Version,
    raw: String,
}

spec fn raws(v: Seq<Candidate>) -> Seq<Seq<char>> {
    Seq::new(v.len(), |i: int| v[i].raw@)
}

spec fn parsed_in(v: Seq<Candidate>, e: crate::model::Ecosystem) -> bool {
    forall|i: int| 0 <= i < v.len() ==> (#[trigger] v[i]).parsed.deep_view() == version_of(v[i].raw@, e)
}

fn rank_in(sorted: &mut Vec<Candidate>, x: Candidate, Ghost(e): Ghost<crate::model::Ecosystem>)
    requires
        parsed_in(old(sorted)@, e),
        x.parsed.deep_view() == version_of(x.raw@, e),
    ensures
        parsed_in(final(sorted)@, e),
        raws(final(sorted)@) == ranked(raws(old(sorted)@), x.raw@, e),
{
    let ghost all = raws(sorted@);
    let ghost it = x.raw@;
    let mut at: usize = sorted.len();
    proof {
        assert(all.take(at as int) =~= all);
        assert(ranked(all, it, e) =~= ranked(all.take(at as int), it, e) + all.skip(at as int));
    }
    while at > 0 && x.parsed.order(&sorted[at - 1].parsed) == Order::Less
        invariant
            at <= sorted@.len(),
            all == raws(sorted@),
            it == x.raw@,
            parsed_in(sorted@, e),
            x.parsed.deep_view() == version_of(x.raw@, e),
            ranked(all, it, e) == ranked(all.take(at as int), it, e) + all.skip(at as int),
        decreases at,
    {
        proof {
            assert(all.take(at as int).last() == sorted@[at - 1].raw@);
            assert(all.take(at as int).drop_last() =~= all.take(at - 1));
            assert(ranked(all.take(at - 1), it, e).push(all[at - 1]) + all.skip(at as int)
                =~= ranked(all.take(at - 1), it, e) + all.skip(at - 1));
        }
        at -= 1;
    }
    proof {
        if at > 0 {
            assert(all.take(at as int).last() == sorted@[at - 1].raw@);
        }
        assert(ranked(all.take(at as int), it, e) == all.take(at as int).push(it));
    }
    let ghost before = sorted@;
    sorted.insert(at, x);
    proof {
        assert(raws(sorted@) =~= all.take(at as int).push(it) + all.skip(at as int));
        assert forall|i: int| 0 <= i < sorted@.len() implies (#[trigger] sorted@[i]).parsed.deep_view()
            == version_of(sorted@[i].raw@, e) by {
            if i < at {
                assert(sorted@[i] == before[i]);
            } else if i > at {
                assert(sorted@[i] == before[i - 1]);
            }
        }
    }
}

impl<'a> Matcher<'a> {
    /// A matcher over `index`.
    pub fn new(index: &'a Index) -> (r: Matcher<'a>)
        ensures
            r.index == index,
    {
        Matcher { index }
    }

    /// Every dependency that at least one advisory applies to.
    pub fn findings(&self, packages: &[ExtractedPackage]) -> (r: Vec<Finding>)
        requires
            self.index.wf(),
        ensures
            r.deep_view() == findings_of(self.index.all(), extracted_views(packages@)),
    {
        let ghost all = self.index.all();
        let ghost views = extracted_views(packages@);
        let mut findings: Vec<Finding> = Vec::new();
        let mut i: usize = 0;
        proof {
            assert(findings.deep_view() =~= seq![]);
        }
        while i < packages.len()
            invariant
                i <= packages@.len(),
                self.index.wf(),
                all == self.index.all(),
                views == extracted_views(packages@),
                findings.deep_view() == findings_of(all, views.take(i as int)),
            decreases packages@.len() - i,
        {
            let extracted = &packages[i];
            let ghost so_far = findings.deep_view();
            proof {
                assert(views.take(i + 1).drop_last() =~= views.take(i as int));
                assert(views.take(i + 1).last() == extracted.deep_view());
            }
            let advisories = self.applicable(&extracted.package);
            if advisories.len() > 0 {
                let fix = self.fix_for(&extracted.package, &advisories);
                findings.push(
                    Finding {
                        package: extracted.package.copy(),
                        advisories,
                        evidence: extracted.evidence.copy(),
                        declared: copy_site(&extracted.declared),
                        paths: copy_paths(&extracted.paths),
                        from_range: extracted.from_range,
                        dep_groups: copy_strings(&extracted.dep_groups),
                        fix,
                    },
                );
                proof {
                    assert(findings.deep_view() =~= so_far.push(
                        finding_of(all, extracted.deep_view()),
                    ));
                }
            }
            i += 1;
        }
        proof {
            assert(views.take(i as int) =~= views);
        }
        findings
    }

    /// Whether any advisory in the index still affects this package at
    /// `version`.
    pub fn affected_at(&self, key: &PackageKey, version: &str) -> (r: bool)
        requires
            self.index.wf(),
        ensures
            r == affected_at_of(self.index.all(), key.deep_view(), version@),
    {
        match Version::parse(version, key.ecosystem) {
            Ok(parsed) => {
                let found = self.index.lookup(key);
                let ghost views = found.deep_view();
                let mut i: usize = 0;
                while i < found.len()
                    invariant
                        i <= found@.len(),
                        views == found.deep_view(),
                        views == lookup_of(self.index.all(), key.deep_view()),
                        parsed.deep_view() == version_of(version@, key.ecosystem),
                        forall|j: int|
                            0 <= j < i ==> !affects(#[trigger] views[j], key.deep_view(), version@),
                    decreases found@.len() - i,
                {
                    if covers(found[i], key, version, &parsed) {
                        proof {
                            assert(affects(views[i as int], key.deep_view(), version@));
                        }
                        return true;
                    }
                    i += 1;
                }
                false
            },
            // A version that cannot be ordered is one not to recommend.
            Err(_) => true,
        }
    }

    /// The lowest published version above the installed one that no advisory
    /// on this package still affects.
    ///
    /// Each candidate is checked against the whole index, not just the
    /// advisories given, because a fix for one can be affected by another.
    /// "Above the installed one" keeps a fix backported to an older release
    /// line from being offered as a downgrade.
    pub fn fix_for(&self, package: &Package, advisories: &Vec<Advisory>) -> (r: Fix)
        requires
            self.index.wf(),
        ensures
            r.deep_view() == fix_of(
                self.index.all(),
                package.deep_view(),
                advisories.deep_view(),
            ),
    {
        let ghost all = self.index.all();
        let ghost p = package.deep_view();
        let ghost e = package.key.ecosystem;
        let installed = match Version::parse(package.version.as_str(), package.ecosystem()) {
            Ok(v) => v,
            Err(_) => return Fix::Absent,
        };
        let ghost given = advisories.deep_view();
        let mut sorted: Vec<Candidate> = Vec::new();
        let ghost mut so_far: Seq<Seq<char>> = seq![];
        let mut i: usize = 0;
        proof {
            assert(raws(sorted@) =~= seq![]);
            assert(ascending(so_far, e) =~= seq![]);
        }
        while i < advisories.len()
            invariant
                i <= advisories@.len(),
                p == package.deep_view(),
                e == package.key.ecosystem,
                given == advisories.deep_view(),
                installed.deep_view() == version_of(p.version, e),
                parsed_in(sorted@, e),
                so_far == candidates_of(given.take(i as int), p),
                raws(sorted@) == ascending(so_far, e),
            decreases advisories@.len() - i,
        {
            let fixes = advisories[i].fixed_versions_for(&package.key);
            let ghost names = fixes.deep_view();
            let ghost earlier = so_far;
            proof {
                assert(given.take(i + 1).drop_last() =~= given.take(i as int));
                assert(given.take(i + 1).last() == advisories@[i as int].deep_view());
                assert(earlier + above(names.take(0), p) =~= earlier);
            }
            let mut j: usize = 0;
            while j < fixes.len()
                invariant
                    j <= fixes@.len(),
                    p == package.deep_view(),
                    e == package.key.ecosystem,
                    names == fixes.deep_view(),
                    installed.deep_view() == version_of(p.version, e),
                    parsed_in(sorted@, e),
                    so_far == earlier + above(names.take(j as int), p),
                    raws(sorted@) == ascending(so_far, e),
                decreases fixes@.len() - j,
            {
                let raw = fixes[j].clone();
                proof {
                    assert(names.take(j + 1).drop_last() =~= names.take(j as int));
                    assert(names.take(j + 1).last() == raw@);
                }
                match Version::parse(raw.as_str(), package.ecosystem()) {
                    Ok(parsed) => {
                        if installed.order(&parsed) == Order::Less {
                            proof {
                                so_far = so_far.push(raw@);
                                assert(so_far.drop_last() =~= earlier + above(
                                    names.take(j as int),
                                    p,
                                ));
                                assert(so_far =~= earlier + above(names.take(j + 1), p));
                            }
                            rank_in(&mut sorted, Candidate { parsed, raw }, Ghost(e));
                        }
                    },
                    Err(_) => {},
                }
                j += 1;
            }
            proof {
                assert(names.take(j as int) =~= names);
            }
            i += 1;
        }
        proof {
            assert(given.take(i as int) =~= given);
            lemma_ascending_len(so_far, e);
        }
        if sorted.len() == 0 {
            return Fix::Absent;
        }
        let ghost order = raws(sorted@);
        let ghost mut kept: Seq<Seq<char>> = seq![];
        let mut last: usize = 0;
        let mut k: usize = 0;
        while k < sorted.len()
            invariant
                k <= sorted@.len(),
                self.index.wf(),
                all == self.index.all(),
                p == package.deep_view(),
                e == package.key.ecosystem,
                parsed_in(sorted@, e),
                order == raws(sorted@),
                order == ascending(candidates_of(advisories.deep_view(), p), e),
                candidates_of(advisories.deep_view(), p).len() > 0,
                kept == distinct(order.take(k as int), e),
                kept.len() > 0 <==> k > 0,
                k > 0 ==> last < k && kept.last() == order[last as int],
                first_clear(all, p.key, kept) is None,
            decreases sorted@.len() - k,
        {
            proof {
                assert(order.take(k + 1).drop_last() =~= order.take(k as int));
                assert(order.take(k + 1).last() == order[k as int]);
                assert(order[k as int] == sorted@[k as int].raw@);
                if k > 0 {
                    assert(order[last as int] == sorted@[last as int].raw@);
                }
            }
            if k == 0 || sorted[k].parsed.order(&sorted[last].parsed) != Order::Equal {
                proof {
                    let before = kept;
                    kept = kept.push(order[k as int]);
                    assert(kept.drop_last() =~= before);
                }
                if !self.affected_at(&package.key, sorted[k].raw.as_str()) {
                    proof {
                        lemma_first_clear_stays(
                            all,
                            p.key,
                            distinct(order, e),
                            kept,
                            order,
                            k + 1,
                            e,
                        );
                    }
                    return Fix::Clears(sorted[k].raw.clone());
                }
                last = k;
            }
            k += 1;
        }
        proof {
            assert(order.take(k as int) =~= order);
        }
        Fix::Partial
    }

    /// The advisories that apply to a package, most severe first and by
    /// identifier among equals, so that output does not churn between runs.
    pub fn applicable(&self, package: &Package) -> (r: Vec<Advisory>)
        requires
            self.index.wf(),
        ensures
            r.deep_view() == applicable_of(self.index.all(), package.deep_view()),
    {
        let found = self.index.lookup(&package.key);
        let ghost views = found.deep_view();
        let ghost p = package.deep_view();
        let version = match Version::parse(package.version.as_str(), package.ecosystem()) {
            Ok(v) => v,
            Err(_) => return Vec::new(),
        };
        let mut hits: Vec<Advisory> = Vec::new();
        let ghost mut chosen: Seq<AdvisoryView> = seq![];
        let mut i: usize = 0;
        proof {
            assert(hits.deep_view() =~= seq![]);
        }
        while i < found.len()
            invariant
                i <= found@.len(),
                views == found.deep_view(),
                p == package.deep_view(),
                version.deep_view() == version_of(p.version, p.key.ecosystem),
                chosen == hits_of(views.take(i as int), p.key, p.version),
                hits.deep_view() == sorted_hits(chosen),
            decreases found@.len() - i,
        {
            proof {
                assert(views.take(i + 1).drop_last() =~= views.take(i as int));
                assert(views.take(i + 1).last() == found@[i as int].deep_view());
            }
            if covers(found[i], &package.key, package.version.as_str(), &version) {
                proof {
                    let before = chosen;
                    chosen = chosen.push(views[i as int]);
                    assert(chosen.drop_last() =~= before);
                }
                place(&mut hits, found[i].copy());
            }
            i += 1;
        }
        proof {
            assert(views.take(i as int) =~= views);
        }
        hits
    }
}

/// Some sightings, by what each says.
pub open spec fn extracted_views(v: Seq<ExtractedPackage>) -> Seq<ExtractedView> {
    Seq::new(v.len(), |i: int| v[i].deep_view())
}

proof fn lemma_ascending_len(v: Seq<Seq<char>>, e: crate::model::Ecosystem)
    ensures
        ascending(v, e).len() == v.len(),
    decreases v.len(),
{
    if v.len() > 0 {
        lemma_ascending_len(v.drop_last(), e);
        lemma_ranked_len(ascending(v.drop_last(), e), v.last(), e);
    }
}

proof fn lemma_ranked_len(v: Seq<Seq<char>>, x: Seq<char>, e: crate::model::Ecosystem)
    ensures
        ranked(v, x, e).len() == v.len() + 1,
    decreases v.len(),
{
    if v.len() > 0 {
        lemma_ranked_len(v.drop_last(), x, e);
    }
}

/// What is kept of the first versions stays the beginning of what is kept.
proof fn lemma_first_clear_stays(
    all: Seq<AdvisoryView>,
    key: KeyView,
    whole: Seq<Seq<char>>,
    kept: Seq<Seq<char>>,
    order: Seq<Seq<char>>,
    n: int,
    e: crate::model::Ecosystem,
)
    requires
        0 <= n <= order.len(),
        kept == distinct(order.take(n), e),
        whole == distinct(order, e),
        first_clear(all, key, kept) is Some,
    ensures
        first_clear(all, key, whole) == first_clear(all, key, kept),
    decreases order.len() - n,
{
    if n == order.len() {
        assert(order.take(n) =~= order);
    } else {
        let more = distinct(order.take(n + 1), e);
        assert(order.take(n + 1).drop_last() =~= order.take(n));
        if more != kept {
            assert(more.drop_last() =~= kept);
        }
        assert(first_clear(all, key, more) == first_clear(all, key, kept));
        lemma_first_clear_stays(all, key, whole, more, order, n + 1, e);
    }
}

// ---- laws ----

/// Ranges are half-open: the version that fixes a range is outside it.
pub proof fn a_fixed_version_is_not_in_range(range: RangeView, version: VersionView)
    requires
        range.fixed.len() > 0,
        version_order(version, version_like(version, range.fixed)) == Order::Equal,
    ensures
        !in_range(range, version),
{
}

/// Ranges are half-open: the version that introduces a flaw is inside, where
/// it is below the fix.
pub proof fn an_introduced_version_is_in_range(range: RangeView, version: VersionView)
    requires
        version_order(version, version_like(version, range.introduced)) == Order::Equal,
        range.fixed.len() > 0 ==> version_order(version, version_like(version, range.fixed))
            == Order::Less,
        range.fixed.len() == 0 && range.last_affected.len() > 0 ==> version_order(
            version,
            version_like(version, range.last_affected),
        ) != Order::Greater,
    ensures
        in_range(range, version),
{
}

/// The last affected version is itself affected, where no fix is named.
pub proof fn a_last_affected_version_is_in_range(range: RangeView, version: VersionView)
    requires
        range.introduced == INTRODUCED_FROM_THE_BEGINNING@,
        range.fixed.len() == 0,
        range.last_affected.len() > 0,
        version_order(version, version_like(version, range.last_affected)) == Order::Equal,
    ensures
        in_range(range, version),
{
}

proof fn lemma_hits(found: Seq<AdvisoryView>, key: KeyView, raw: Seq<char>)
    ensures
        hits_of(found, key, raw).len() > 0 <==> exists|i: int|
            0 <= i < found.len() && affects(#[trigger] found[i], key, raw),
        forall|i: int|
            0 <= i < hits_of(found, key, raw).len() ==> affects(
                #[trigger] hits_of(found, key, raw)[i],
                key,
                raw,
            ),
    decreases found.len(),
{
    if found.len() > 0 {
        lemma_hits(found.drop_last(), key, raw);
        let rest = found.drop_last();
        if affects(found.last(), key, raw) {
            assert(affects(found[found.len() - 1], key, raw));
        }
        if hits_of(rest, key, raw).len() > 0 {
            let i = choose|i: int| 0 <= i < rest.len() && affects(#[trigger] rest[i], key, raw);
            assert(found[i] == rest[i]);
        }
        assert forall|i: int| 0 <= i < found.len() && affects(#[trigger] found[i], key, raw)
            && !affects(found.last(), key, raw) implies hits_of(rest, key, raw).len() > 0 by {
            assert(rest[i] == found[i]);
        }
        assert forall|i: int| 0 <= i < hits_of(found, key, raw).len() implies affects(
            #[trigger] hits_of(found, key, raw)[i],
            key,
            raw,
        ) by {
            if i < hits_of(rest, key, raw).len() {
                assert(hits_of(found, key, raw)[i] == hits_of(rest, key, raw)[i]);
            }
        }
    }
}

proof fn lemma_placed(sorted: Seq<AdvisoryView>, x: AdvisoryView)
    ensures
        placed(sorted, x).to_multiset() == sorted.to_multiset().insert(x),
        placed(sorted, x).len() == sorted.len() + 1,
    decreases sorted.len(),
{
    broadcast use vstd::seq_lib::group_to_multiset_ensures;

    if sorted.len() > 0 && precedes(x, sorted.last()) {
        lemma_placed(sorted.drop_last(), x);
        assert(sorted.drop_last().push(sorted.last()) =~= sorted);
        assert(placed(sorted, x).to_multiset() =~= sorted.to_multiset().insert(x));
    }
}

pub open spec fn in_order(v: Seq<AdvisoryView>) -> bool {
    forall|i: int, j: int| 0 <= i < j < v.len() ==> !precedes(#[trigger] v[j], #[trigger] v[i])
}

proof fn lemma_precedes_transitive(a: AdvisoryView, b: AdvisoryView, c: AdvisoryView)
    ensures
        !precedes(b, a) && !precedes(c, b) ==> !precedes(c, a),
        precedes(a, b) ==> !precedes(b, a),
        precedes(a, b) && !precedes(c, b) ==> !precedes(c, a),
{
    crate::order::lemma_text_coherent(a.id, b.id, c.id);
    crate::order::lemma_text_coherent(c.id, b.id, a.id);
    crate::order::lemma_text_flip(a.id, b.id);
    crate::order::lemma_text_flip(b.id, c.id);
    crate::order::lemma_text_flip(a.id, c.id);
}

proof fn lemma_placed_in_order(sorted: Seq<AdvisoryView>, x: AdvisoryView)
    requires
        in_order(sorted),
    ensures
        in_order(placed(sorted, x)),
        forall|i: int|
            0 <= i < placed(sorted, x).len() ==> (#[trigger] placed(sorted, x)[i] == x || exists|
                k: int,
            |
                0 <= k < sorted.len() && #[trigger] sorted[k] == placed(sorted, x)[i]),
    decreases sorted.len(),
{
    let out = placed(sorted, x);
    if sorted.len() > 0 && precedes(x, sorted.last()) {
        let front = sorted.drop_last();
        let last = sorted.last();
        assert forall|i: int, j: int| 0 <= i < j < front.len() implies !precedes(
            #[trigger] front[j],
            #[trigger] front[i],
        ) by {
            assert(front[i] == sorted[i] && front[j] == sorted[j]);
        }
        lemma_placed_in_order(front, x);
        let p = placed(front, x);
        assert forall|i: int| 0 <= i < out.len() implies (#[trigger] out[i] == x || exists|k: int|
            0 <= k < sorted.len() && #[trigger] sorted[k] == out[i]) by {
            if i < p.len() {
                assert(out[i] == p[i]);
                if p[i] != x {
                    let k = choose|k: int| 0 <= k < front.len() && #[trigger] front[k] == p[i];
                    assert(sorted[k] == out[i]);
                }
            } else {
                assert(sorted[sorted.len() - 1] == out[i]);
            }
        }
        assert forall|i: int, j: int| 0 <= i < j < out.len() implies !precedes(
            #[trigger] out[j],
            #[trigger] out[i],
        ) by {
            if j < p.len() {
                assert(out[i] == p[i] && out[j] == p[j]);
            } else {
                assert(out[i] == p[i] && out[j] == last);
                if p[i] == x {
                    lemma_precedes_transitive(x, last, last);
                } else {
                    let k = choose|k: int| 0 <= k < front.len() && #[trigger] front[k] == p[i];
                    assert(sorted[k] == p[i]);
                    assert(sorted[sorted.len() - 1] == last);
                }
            }
        }
    } else {
        assert forall|i: int| 0 <= i < out.len() implies (#[trigger] out[i] == x || exists|k: int|
            0 <= k < sorted.len() && #[trigger] sorted[k] == out[i]) by {
            if i < sorted.len() {
                assert(sorted[i] == out[i]);
            }
        }
        assert forall|i: int, j: int| 0 <= i < j < out.len() implies !precedes(
            #[trigger] out[j],
            #[trigger] out[i],
        ) by {
            if j < sorted.len() {
                assert(out[i] == sorted[i] && out[j] == sorted[j]);
            } else {
                assert(out[i] == sorted[i] && out[j] == x);
                let last = sorted[sorted.len() - 1];
                if i < sorted.len() - 1 {
                    assert(!precedes(last, sorted[i]));
                    lemma_precedes_transitive(sorted[i], last, x);
                }
            }
        }
    }
}

/// Advisories are listed most severe first and by identifier among equals:
/// the same ones, none listed before one it follows.
pub proof fn hits_are_sorted(hits: Seq<AdvisoryView>)
    ensures
        in_order(sorted_hits(hits)),
        sorted_hits(hits).to_multiset() == hits.to_multiset(),
        sorted_hits(hits).len() == hits.len(),
    decreases hits.len(),
{
    broadcast use vstd::seq_lib::group_to_multiset_ensures;

    if hits.len() > 0 {
        hits_are_sorted(hits.drop_last());
        lemma_placed(sorted_hits(hits.drop_last()), hits.last());
        lemma_placed_in_order(sorted_hits(hits.drop_last()), hits.last());
        assert(hits.drop_last().push(hits.last()) =~= hits);
        assert(sorted_hits(hits).to_multiset() =~= hits.to_multiset());
    }
}

/// A package is reported exactly when it is still affected at its version, so
/// a version that clears everything is one that would give no finding.
pub proof fn affected_at_agrees_with_findings(all: Seq<AdvisoryView>, p: ExtractedView)
    ensures
        findings_of(all, seq![p]).len() > 0 <==> affected_at_of(
            all,
            p.package.key,
            p.package.version,
        ),
{
    let found = lookup_of(all, p.package.key);
    lemma_hits(found, p.package.key, p.package.version);
    hits_are_sorted(hits_of(found, p.package.key, p.package.version));
    assert(seq![p].drop_last() =~= seq![]);
    assert(findings_of(all, seq![p].drop_last()) =~= seq![]);
    if affected_at_of(all, p.package.key, p.package.version) {
        let i = choose|i: int|
            0 <= i < found.len() && affects(
                #[trigger] found[i],
                p.package.key,
                p.package.version,
            );
        assert(affects(found[i], p.package.key, p.package.version));
    }
}

proof fn lemma_ranked_members(sorted: Seq<Seq<char>>, x: Seq<char>, e: crate::model::Ecosystem)
    ensures
        ranked(sorted, x, e).to_multiset() == sorted.to_multiset().insert(x),
    decreases sorted.len(),
{
    broadcast use vstd::seq_lib::group_to_multiset_ensures;

    if sorted.len() > 0 && strings_order(x, sorted.last(), e) == Order::Less {
        lemma_ranked_members(sorted.drop_last(), x, e);
        assert(sorted.drop_last().push(sorted.last()) =~= sorted);
        assert(ranked(sorted, x, e).to_multiset() =~= sorted.to_multiset().insert(x));
    }
}

proof fn lemma_ascending_members(v: Seq<Seq<char>>, e: crate::model::Ecosystem)
    ensures
        ascending(v, e).to_multiset() == v.to_multiset(),
    decreases v.len(),
{
    broadcast use vstd::seq_lib::group_to_multiset_ensures;

    if v.len() > 0 {
        lemma_ascending_members(v.drop_last(), e);
        lemma_ranked_members(ascending(v.drop_last(), e), v.last(), e);
        assert(v.drop_last().push(v.last()) =~= v);
        assert(ascending(v, e).to_multiset() =~= v.to_multiset());
    }
}

pub open spec fn climbing(v: Seq<Seq<char>>, e: crate::model::Ecosystem) -> bool {
    forall|i: int, j: int|
        0 <= i < j < v.len() ==> strings_order(#[trigger] v[j], #[trigger] v[i], e) != Order::Less
}

proof fn lemma_ranked_climbing(sorted: Seq<Seq<char>>, x: Seq<char>, e: crate::model::Ecosystem)
    requires
        climbing(sorted, e),
    ensures
        climbing(ranked(sorted, x, e), e),
        forall|i: int|
            0 <= i < ranked(sorted, x, e).len() ==> (#[trigger] ranked(sorted, x, e)[i] == x
                || exists|k: int|
                0 <= k < sorted.len() && #[trigger] sorted[k] == ranked(sorted, x, e)[i]),
    decreases sorted.len(),
{
    let out = ranked(sorted, x, e);
    if sorted.len() > 0 && strings_order(x, sorted.last(), e) == Order::Less {
        let front = sorted.drop_last();
        let last = sorted.last();
        assert forall|i: int, j: int| 0 <= i < j < front.len() implies strings_order(
            #[trigger] front[j],
            #[trigger] front[i],
            e,
        ) != Order::Less by {
            assert(front[i] == sorted[i] && front[j] == sorted[j]);
        }
        lemma_ranked_climbing(front, x, e);
        let p = ranked(front, x, e);
        assert forall|i: int| 0 <= i < out.len() implies (#[trigger] out[i] == x || exists|k: int|
            0 <= k < sorted.len() && #[trigger] sorted[k] == out[i]) by {
            if i < p.len() {
                assert(out[i] == p[i]);
                if p[i] != x {
                    let k = choose|k: int| 0 <= k < front.len() && #[trigger] front[k] == p[i];
                    assert(sorted[k] == out[i]);
                }
            } else {
                assert(sorted[sorted.len() - 1] == out[i]);
            }
        }
        assert forall|i: int, j: int| 0 <= i < j < out.len() implies strings_order(
            #[trigger] out[j],
            #[trigger] out[i],
            e,
        ) != Order::Less by {
            if j < p.len() {
                assert(out[i] == p[i] && out[j] == p[j]);
            } else {
                assert(out[i] == p[i] && out[j] == last);
                if p[i] == x {
                    crate::version::version_order_is_antisymmetric(x, last, e);
                } else {
                    let k = choose|k: int| 0 <= k < front.len() && #[trigger] front[k] == p[i];
                    assert(sorted[k] == p[i]);
                    assert(sorted[sorted.len() - 1] == last);
                }
            }
        }
    } else {
        assert forall|i: int| 0 <= i < out.len() implies (#[trigger] out[i] == x || exists|k: int|
            0 <= k < sorted.len() && #[trigger] sorted[k] == out[i]) by {
            if i < sorted.len() {
                assert(sorted[i] == out[i]);
            }
        }
        assert forall|i: int, j: int| 0 <= i < j < out.len() implies strings_order(
            #[trigger] out[j],
            #[trigger] out[i],
            e,
        ) != Order::Less by {
            if j < sorted.len() {
                assert(out[i] == sorted[i] && out[j] == sorted[j]);
            } else {
                assert(out[i] == sorted[i] && out[j] == x);
                let last = sorted[sorted.len() - 1];
                if i < sorted.len() - 1 {
                    assert(strings_order(last, sorted[i], e) != Order::Less);
                    lemma_not_less(x, last, sorted[i], e);
                }
            }
        }
    }
}

proof fn lemma_not_less(a: Seq<char>, b: Seq<char>, c: Seq<char>, e: crate::model::Ecosystem)
    requires
        strings_order(a, b, e) != Order::Less,
        strings_order(b, c, e) != Order::Less,
    ensures
        strings_order(a, c, e) != Order::Less,
{
    crate::version::version_order_is_transitive(c, b, a, e);
    crate::version::version_order_is_antisymmetric(a, b, e);
    crate::version::version_order_is_antisymmetric(b, c, e);
    crate::version::version_order_is_antisymmetric(a, c, e);
}

proof fn lemma_ascending_climbing(v: Seq<Seq<char>>, e: crate::model::Ecosystem)
    ensures
        climbing(ascending(v, e), e),
    decreases v.len(),
{
    if v.len() > 0 {
        lemma_ascending_climbing(v.drop_last(), e);
        lemma_ranked_climbing(ascending(v.drop_last(), e), v.last(), e);
    }
}

/// What is kept of a sorted list: some of it, in its order, and an equal of
/// each of it.
#[verifier::rlimit(60)]
#[verifier::spinoff_prover]
proof fn lemma_distinct(sorted: Seq<Seq<char>>, e: crate::model::Ecosystem)
    requires
        climbing(sorted, e),
    ensures
        climbing(distinct(sorted, e), e),
        forall|i: int|
            0 <= i < distinct(sorted, e).len() ==> sorted.contains(
                #[trigger] distinct(sorted, e)[i],
            ),
        forall|i: int|
            0 <= i < sorted.len() ==> exists|k: int|
                0 <= k < distinct(sorted, e).len() && strings_order(
                    #[trigger] sorted[i],
                    #[trigger] distinct(sorted, e)[k],
                    e,
                ) == Order::Equal,
        sorted.len() > 0 ==> distinct(sorted, e).len() > 0,
    decreases sorted.len(),
{
    if sorted.len() > 0 {
        let front = sorted.drop_last();
        let last = sorted.last();
        let kept = distinct(front, e);
        let out = distinct(sorted, e);
        assert forall|i: int, j: int| 0 <= i < j < front.len() implies strings_order(
            #[trigger] front[j],
            #[trigger] front[i],
            e,
        ) != Order::Less by {
            assert(front[i] == sorted[i] && front[j] == sorted[j]);
        }
        lemma_distinct(front, e);
        crate::version::version_order_is_antisymmetric(last, last, e);
        assert forall|i: int| 0 <= i < out.len() implies sorted.contains(#[trigger] out[i]) by {
            if i < kept.len() {
                assert(out[i] == kept[i]);
                assert(front.contains(kept[i]));
                let k = choose|k: int| 0 <= k < front.len() && front[k] == kept[i];
                assert(sorted[k] == out[i]);
            } else {
                assert(sorted[sorted.len() - 1] == out[i]);
            }
        }
        assert forall|i: int, j: int| 0 <= i < j < out.len() implies strings_order(
            #[trigger] out[j],
            #[trigger] out[i],
            e,
        ) != Order::Less by {
            if j < kept.len() {
                assert(out[i] == kept[i] && out[j] == kept[j]);
            } else {
                assert(out[i] == kept[i] && out[j] == last);
                assert(front.contains(kept[i]));
                let k = choose|k: int| 0 <= k < front.len() && front[k] == kept[i];
                assert(sorted[k] == out[i]);
                assert(sorted[sorted.len() - 1] == last);
            }
        }
        assert forall|i: int| 0 <= i < sorted.len() implies exists|k: int|
            0 <= k < out.len() && strings_order(#[trigger] sorted[i], #[trigger] out[k], e)
                == Order::Equal by {
            if i < front.len() {
                assert(sorted[i] == front[i]);
                let k = choose|k: int|
                    0 <= k < kept.len() && strings_order(
                        #[trigger] front[i],
                        #[trigger] kept[k],
                        e,
                    ) == Order::Equal;
                assert(out[k] == kept[k]);
            } else {
                assert(strings_order(last, out[out.len() - 1], e) == Order::Equal);
            }
        }
    }
}

proof fn lemma_first_clear(all: Seq<AdvisoryView>, key: KeyView, versions: Seq<Seq<char>>)
    ensures
        match first_clear(all, key, versions) {
            Some(v) => exists|k: int|
                0 <= k < versions.len() && #[trigger] versions[k] == v && !affected_at_of(
                    all,
                    key,
                    v,
                ) && forall|i: int|
                    0 <= i < k ==> affected_at_of(all, key, #[trigger] versions[i]),
            None => forall|i: int|
                0 <= i < versions.len() ==> affected_at_of(all, key, #[trigger] versions[i]),
        },
    decreases versions.len(),
{
    if versions.len() > 0 {
        let front = versions.drop_last();
        lemma_first_clear(all, key, front);
        match first_clear(all, key, front) {
            Some(v) => {
                let k = choose|k: int|
                    0 <= k < front.len() && #[trigger] front[k] == v && !affected_at_of(
                        all,
                        key,
                        v,
                    ) && forall|i: int|
                        0 <= i < k ==> affected_at_of(all, key, #[trigger] front[i]);
                assert(versions[k] == v);
                assert forall|i: int| 0 <= i < k implies affected_at_of(
                    all,
                    key,
                    #[trigger] versions[i],
                ) by {
                    assert(front[i] == versions[i]);
                }
            },
            None => {
                assert forall|i: int| 0 <= i < front.len() implies affected_at_of(
                    all,
                    key,
                    #[trigger] versions[i],
                ) by {
                    assert(front[i] == versions[i]);
                }
                if !affected_at_of(all, key, versions.last()) {
                    assert(versions[versions.len() - 1] == versions.last());
                }
            },
        }
    }
}

/// The version a fix names was published as a fix, is above the installed one,
/// and is affected by nothing known. It is the lowest such: of any candidate
/// below it, the spelling that stood for it is affected.
#[verifier::rlimit(60)]
#[verifier::spinoff_prover]
pub proof fn a_fix_clears_everything(
    all: Seq<AdvisoryView>,
    package: PackageView,
    advisories: Seq<AdvisoryView>,
    version: Seq<char>,
    lower: Seq<char>,
)
    requires
        fix_of(all, package, advisories) == FixView::Clears(version),
        candidates_of(advisories, package).contains(lower),
        strings_order(lower, version, package.key.ecosystem) == Order::Less,
    ensures
        candidates_of(advisories, package).contains(version),
        is_above(version, package),
        !affected_at_of(all, package.key, version),
        exists|w: Seq<char>|
            candidates_of(advisories, package).contains(w) && strings_order(
                lower,
                w,
                package.key.ecosystem,
            ) == Order::Equal && #[trigger] affected_at_of(all, package.key, w),
{
    let e = package.key.ecosystem;
    let candidates = candidates_of(advisories, package);
    let sorted = ascending(candidates, e);
    let kept = distinct(sorted, e);
    a_fix_is_a_clear_candidate(all, package, advisories, version);
    lemma_ascending_climbing(candidates, e);
    lemma_ascending_members(candidates, e);
    lemma_distinct(sorted, e);
    lemma_first_clear(all, package.key, kept);
    lemma_contains(candidates, sorted, lower);
    let i = choose|i: int| 0 <= i < sorted.len() && sorted[i] == lower;
    assert(sorted[i] == lower);
    let k = choose|k: int|
        0 <= k < kept.len() && strings_order(#[trigger] sorted[i], #[trigger] kept[k], e)
            == Order::Equal;
    let w = kept[k];
    let at = choose|at: int|
        0 <= at < kept.len() && #[trigger] kept[at] == version && !affected_at_of(
            all,
            package.key,
            version,
        ) && forall|i: int| 0 <= i < at ==> affected_at_of(all, package.key, #[trigger] kept[i]);
    crate::version::version_order_is_antisymmetric(w, version, e);
    crate::version::version_order_is_antisymmetric(lower, w, e);
    crate::version::version_order_is_transitive(w, lower, version, e);
    assert(strings_order(w, version, e) == Order::Less);
    if k >= at {
        if k == at {
            crate::version::version_order_is_antisymmetric(version, version, e);
        } else {
            assert(strings_order(kept[k], kept[at], e) != Order::Less);
        }
    }
    assert(affected_at_of(all, package.key, w));
    assert(sorted.contains(w));
    lemma_contains(sorted, candidates, w);
}

proof fn lemma_contains(a: Seq<Seq<char>>, b: Seq<Seq<char>>, x: Seq<char>)
    requires
        a.to_multiset() == b.to_multiset(),
        a.contains(x),
    ensures
        b.contains(x),
{
    broadcast use vstd::seq_lib::group_to_multiset_ensures;

    assert(a.to_multiset().contains(x));
}

proof fn lemma_above(fixes: Seq<Seq<char>>, package: PackageView)
    ensures
        forall|i: int|
            0 <= i < above(fixes, package).len() ==> is_above(
                #[trigger] above(fixes, package)[i],
                package,
            ),
    decreases fixes.len(),
{
    if fixes.len() > 0 {
        lemma_above(fixes.drop_last(), package);
        let rest = above(fixes.drop_last(), package);
        let out = above(fixes, package);
        assert forall|i: int| 0 <= i < out.len() implies is_above(#[trigger] out[i], package) by {
            if i < rest.len() {
                assert(out[i] == rest[i]);
            }
        }
    }
}

proof fn lemma_candidates_above(advisories: Seq<AdvisoryView>, package: PackageView)
    ensures
        forall|i: int|
            0 <= i < candidates_of(advisories, package).len() ==> is_above(
                #[trigger] candidates_of(advisories, package)[i],
                package,
            ),
    decreases advisories.len(),
{
    if advisories.len() > 0 {
        lemma_candidates_above(advisories.drop_last(), package);
        let front = candidates_of(advisories.drop_last(), package);
        let fixes = entry_fixes(advisories.last().affected, package.key);
        lemma_above(fixes, package);
        let out = candidates_of(advisories, package);
        assert forall|i: int| 0 <= i < out.len() implies is_above(#[trigger] out[i], package) by {
            if i < front.len() {
                assert(out[i] == front[i]);
            } else {
                assert(out[i] == above(fixes, package)[i - front.len()]);
            }
        }
    }
}

/// A fix is never a downgrade, was published, and clears every advisory on the
/// package, not only those that were found.
pub proof fn a_fix_is_a_clear_candidate(
    all: Seq<AdvisoryView>,
    package: PackageView,
    advisories: Seq<AdvisoryView>,
    version: Seq<char>,
)
    requires
        fix_of(all, package, advisories) == FixView::Clears(version),
    ensures
        candidates_of(advisories, package).contains(version),
        is_above(version, package),
        !affected_at_of(all, package.key, version),
{
    let e = package.key.ecosystem;
    let candidates = candidates_of(advisories, package);
    let sorted = ascending(candidates, e);
    let kept = distinct(sorted, e);
    lemma_ascending_climbing(candidates, e);
    lemma_ascending_members(candidates, e);
    lemma_distinct(sorted, e);
    lemma_first_clear(all, package.key, kept);
    let k = choose|k: int|
        0 <= k < kept.len() && #[trigger] kept[k] == version && !affected_at_of(
            all,
            package.key,
            version,
        ) && forall|i: int| 0 <= i < k ==> affected_at_of(all, package.key, #[trigger] kept[i]);
    assert(sorted.contains(kept[k]));
    lemma_contains(sorted, candidates, version);
    lemma_candidates_above(advisories, package);
    let i = choose|i: int| 0 <= i < candidates.len() && candidates[i] == version;
    assert(is_above(candidates[i], package));
}

/// Where fixes above the installed version exist and none is named, every one
/// of them is affected, or spells the same version as one that is.
pub proof fn a_partial_fix_clears_nothing(
    all: Seq<AdvisoryView>,
    package: PackageView,
    advisories: Seq<AdvisoryView>,
    candidate: Seq<char>,
)
    requires
        fix_of(all, package, advisories) == FixView::Partial,
        candidates_of(advisories, package).contains(candidate),
    ensures
        exists|w: Seq<char>|
            candidates_of(advisories, package).contains(w) && strings_order(
                candidate,
                w,
                package.key.ecosystem,
            ) == Order::Equal && #[trigger] affected_at_of(all, package.key, w),
{
    let e = package.key.ecosystem;
    let candidates = candidates_of(advisories, package);
    let sorted = ascending(candidates, e);
    let kept = distinct(sorted, e);
    lemma_ascending_climbing(candidates, e);
    lemma_ascending_members(candidates, e);
    lemma_distinct(sorted, e);
    lemma_first_clear(all, package.key, kept);
    lemma_contains(candidates, sorted, candidate);
    let i = choose|i: int| 0 <= i < sorted.len() && sorted[i] == candidate;
    assert(sorted[i] == candidate);
    let k = choose|k: int|
        0 <= k < kept.len() && strings_order(#[trigger] sorted[i], #[trigger] kept[k], e)
            == Order::Equal;
    assert(affected_at_of(all, package.key, kept[k]));
    assert(sorted.contains(kept[k]));
    lemma_contains(sorted, candidates, kept[k]);
}

/// An advisory whose entries are all about other packages is never found for
/// this one.
pub proof fn an_advisory_for_another_package_never_matches(
    advisory: AdvisoryView,
    key: KeyView,
    raw: Seq<char>,
)
    requires
        mentions(advisory.affected, key) == 0,
    ensures
        !affects(advisory, key, raw),
{
    if affects(advisory, key, raw) {
        let i = choose|i: int|
            0 <= i < advisory.affected.len() && entry_affects(
                #[trigger] advisory.affected[i],
                key,
                raw,
                version_of(raw, key.ecosystem),
            );
        lemma_mentions(advisory.affected, key, i);
    }
}

proof fn lemma_mentions(affected: Seq<AffectedView>, key: KeyView, i: int)
    requires
        0 <= i < affected.len(),
        affected[i].package == key,
    ensures
        mentions(affected, key) > 0,
    decreases affected.len(),
{
    if i < affected.len() - 1 {
        lemma_mentions(affected.drop_last(), key, i);
    }
}

// ---- where advisories come from ----

proof fn lemma_hits_count(found: Seq<AdvisoryView>, key: KeyView, raw: Seq<char>, x: AdvisoryView)
    ensures
        hits_of(found, key, raw).to_multiset().count(x) == (if affects(x, key, raw) {
            found.to_multiset().count(x)
        } else {
            0
        }),
    decreases found.len(),
{
    broadcast use vstd::seq_lib::group_to_multiset_ensures;

    if found.len() > 0 {
        lemma_hits_count(found.drop_last(), key, raw, x);
        assert(found =~= found.drop_last().push(found.last()));
    }
}

/// Whether an identifier stands for one advisory in a list.
pub open spec fn ids_tell_apart(found: Seq<AdvisoryView>) -> bool {
    forall|i: int, j: int|
        0 <= i < found.len() && 0 <= j < found.len() && (#[trigger] found[i]).id == (
        #[trigger] found[j]).id ==> found[i] == found[j]
}

/// Two lists in order that hold the same are the same.
proof fn lemma_one_order(a: Seq<AdvisoryView>, b: Seq<AdvisoryView>)
    requires
        in_order(a),
        in_order(b),
        a.to_multiset() == b.to_multiset(),
        ids_tell_apart(a),
    ensures
        a == b,
    decreases a.len(),
{
    broadcast use vstd::seq_lib::group_to_multiset_ensures;

    assert(a.len() == a.to_multiset().len());
    assert(b.len() == b.to_multiset().len());
    if a.len() == 0 {
        assert(a =~= b);
    } else {
        let x = a.last();
        let y = b.last();
        assert(b.contains(x)) by {
            assert(a.contains(x));
            assert(a.to_multiset().count(x) > 0);
        }
        assert(a.contains(y)) by {
            assert(b.contains(y));
            assert(b.to_multiset().count(y) > 0);
        }
        let i = choose|i: int| 0 <= i < a.len() && a[i] == y;
        let j = choose|j: int| 0 <= j < b.len() && b[j] == x;
        if x != y {
            assert(!precedes(a[a.len() - 1], a[i]));
            assert(!precedes(b[b.len() - 1], b[j]));
            assert(x.id != y.id);
            crate::order::lemma_text_equal(x.id, y.id);
            crate::order::lemma_text_flip(x.id, y.id);
        }
        let (c, d) = (a.drop_last(), b.drop_last());
        assert(a =~= c.push(x));
        assert(b =~= d.push(x));
        assert(c.to_multiset() =~= d.to_multiset()) by {
            assert(c.push(x).to_multiset() =~= c.to_multiset().insert(x));
            assert(d.push(x).to_multiset() =~= d.to_multiset().insert(x));
            assert forall|z: AdvisoryView| c.to_multiset().count(z) == d.to_multiset().count(z) by {
                assert(c.to_multiset().insert(x).count(z) == d.to_multiset().insert(x).count(z));
            }
        }
        assert forall|p: int, q: int|
            0 <= p < c.len() && 0 <= q < c.len() && (#[trigger] c[p]).id == (
            #[trigger] c[q]).id implies c[p] == c[q] by {
            assert(a[p] == c[p] && a[q] == c[q]);
        }
        assert forall|p: int, q: int| 0 <= p < q < c.len() implies !precedes(
            #[trigger] c[q],
            #[trigger] c[p],
        ) by {
            assert(a[p] == c[p] && a[q] == c[q]);
        }
        assert forall|p: int, q: int| 0 <= p < q < d.len() implies !precedes(
            #[trigger] d[q],
            #[trigger] d[p],
        ) by {
            assert(b[p] == d[p] && b[q] == d[q]);
        }
        lemma_one_order(c, d);
    }
}

proof fn lemma_same_clear(
    one: Seq<AdvisoryView>,
    other: Seq<AdvisoryView>,
    key: KeyView,
    versions: Seq<Seq<char>>,
)
    requires
        lookup_of(one, key).to_multiset() == lookup_of(other, key).to_multiset(),
    ensures
        first_clear(one, key, versions) == first_clear(other, key, versions),
    decreases versions.len(),
{
    if versions.len() > 0 {
        lemma_same_clear(one, other, key, versions.drop_last());
        lemma_same_affected(one, other, key, versions.last());
        lemma_same_affected(other, one, key, versions.last());
    }
}

proof fn lemma_same_affected(
    one: Seq<AdvisoryView>,
    other: Seq<AdvisoryView>,
    key: KeyView,
    raw: Seq<char>,
)
    requires
        lookup_of(one, key).to_multiset() == lookup_of(other, key).to_multiset(),
    ensures
        affected_at_of(one, key, raw) ==> affected_at_of(other, key, raw),
{
    broadcast use vstd::seq_lib::group_to_multiset_ensures;

    if affected_at_of(one, key, raw) {
        let (a, b) = (lookup_of(one, key), lookup_of(other, key));
        let i = choose|i: int| 0 <= i < a.len() && affects(#[trigger] a[i], key, raw);
        assert(a.contains(a[i]));
        assert(a.to_multiset().count(a[i]) > 0);
        assert(b.contains(a[i]));
        let j = choose|j: int| 0 <= j < b.len() && b[j] == a[i];
        assert(affects(b[j], key, raw));
    }
}

/// Whether two sources hold the same advisories for a package, in whatever
/// order.
pub open spec fn agree_on(one: Seq<AdvisoryView>, other: Seq<AdvisoryView>, key: KeyView) -> bool {
    &&& lookup_of(one, key).to_multiset() == lookup_of(other, key).to_multiset()
    &&& ids_tell_apart(lookup_of(one, key))
}

/// The matcher cannot tell where advisories come from: two sources that hold
/// the same advisories for each package, in whatever order and whatever else
/// they hold, give the same findings.
pub proof fn sources_that_agree_give_the_same_findings(
    one: Seq<AdvisoryView>,
    other: Seq<AdvisoryView>,
    packages: Seq<ExtractedView>,
)
    requires
        forall|i: int|
            0 <= i < packages.len() ==> agree_on(one, other, (#[trigger] packages[i]).package.key),
    ensures
        findings_of(one, packages) == findings_of(other, packages),
    decreases packages.len(),
{
    if packages.len() > 0 {
        let front = packages.drop_last();
        assert forall|i: int| 0 <= i < front.len() implies agree_on(
            one,
            other,
            (#[trigger] front[i]).package.key,
        ) by {
            assert(front[i] == packages[i]);
        }
        sources_that_agree_give_the_same_findings(one, other, front);
        let p = packages.last().package;
        assert(agree_on(one, other, packages[packages.len() - 1].package.key));
        lemma_same_applicable(one, other, p);
        let e = p.key.ecosystem;
        let hits = applicable_of(one, p);
        lemma_same_clear(one, other, p.key, distinct(ascending(candidates_of(hits, p), e), e));
    }
}

proof fn lemma_same_applicable(
    one: Seq<AdvisoryView>,
    other: Seq<AdvisoryView>,
    p: PackageView,
)
    requires
        agree_on(one, other, p.key),
    ensures
        applicable_of(one, p) == applicable_of(other, p),
{
    broadcast use vstd::seq_lib::group_to_multiset_ensures;

    let (a, b) = (lookup_of(one, p.key), lookup_of(other, p.key));
    let (x, y) = (hits_of(a, p.key, p.version), hits_of(b, p.key, p.version));
    assert(x.to_multiset() =~= y.to_multiset()) by {
        assert forall|z: AdvisoryView| x.to_multiset().count(z) == y.to_multiset().count(z) by {
            lemma_hits_count(a, p.key, p.version, z);
            lemma_hits_count(b, p.key, p.version, z);
        }
    }
    hits_are_sorted(x);
    hits_are_sorted(y);
    let s = sorted_hits(x);
    assert forall|i: int, j: int|
        0 <= i < s.len() && 0 <= j < s.len() && (#[trigger] s[i]).id == (
        #[trigger] s[j]).id implies s[i] == s[j] by {
        lemma_hits_count(a, p.key, p.version, s[i]);
        lemma_hits_count(a, p.key, p.version, s[j]);
        assert(s.contains(s[i]) && s.contains(s[j]));
        assert(a.contains(s[i]) && a.contains(s[j]));
        let m = choose|m: int| 0 <= m < a.len() && a[m] == s[i];
        let n = choose|n: int| 0 <= n < a.len() && a[n] == s[j];
        assert(a[m].id == a[n].id);
    }
    lemma_one_order(s, sorted_hits(y));
}

} // verus!
