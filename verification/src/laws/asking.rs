//! What is asked over the network, what is kept of the answers, and how a scan
//! goes about it.
use crate::action::{
    any_ours, is_ours, ours_with, selects_of, title_of, upgrades_among, AskingView, SentView,
};
use crate::api::{
    asked_of, first_of_round, groups_of, is_answered, is_fresh, is_safe_id, query_of, recorded,
    safe_ids, sifted, unanswered, wanted_of, ActionView, AskedView, CacheView, GroupView,
    ResultView,
};
use crate::config::{covers, sendable};
use crate::diagnostics::is_elsewhere;
use crate::extract::{all_named, named_at, version_span_of};
use crate::model::{
    anchor_of, ecosystem_name, ecosystems_in, ExtractedView, Ecosystem, FindingView, KeyView, Range,
};
use crate::scan::{among, checkable_of, plan_of, PlanView};
use crate::span::Encoding;
use crate::text::is_alnum;
use vstd::prelude::*;

verus! {

// ---- what may be sent ----

/// Whether a package is kept from being sent: some excluded prefix begins its
/// name, with or without its ecosystem.
pub open spec fn is_private(exclude: Seq<Seq<char>>, e: Ecosystem, name: Seq<char>) -> bool {
    exists|i: int|
        0 <= i < exclude.len() && ((#[trigger] exclude[i]).is_prefix_of(name)
            || exclude[i].is_prefix_of(ecosystem_name(e) + ":"@ + name))
}

proof fn lemma_private(exclude: Seq<Seq<char>>, e: Ecosystem, name: Seq<char>)
    ensures
        sendable(exclude, e, name) == !is_private(exclude, e, name),
{
    if is_private(exclude, e, name) {
        let i = choose|i: int|
            0 <= i < exclude.len() && ((#[trigger] exclude[i]).is_prefix_of(name)
                || exclude[i].is_prefix_of(ecosystem_name(e) + ":"@ + name));
        assert(covers(exclude[i], e, name));
    } else {
        assert forall|i: int| 0 <= i < exclude.len() implies !covers(
            #[trigger] exclude[i],
            e,
            name,
        ) by {}
    }
}

/// Every package of an ecosystem is asked about at every version it is used at,
/// unless it is private; and nothing else is.
pub proof fn what_is_not_private_is_asked(
    packages: Seq<ExtractedView>,
    exclude: Seq<Seq<char>>,
    e: Ecosystem,
    a: AskedView,
)
    ensures
        asked_of(packages, exclude, e).contains(a) <==> !is_private(exclude, e, a.name) && exists|
            i: int,
        |
            0 <= i < packages.len() && (#[trigger] packages[i]).package.key == (KeyView {
                ecosystem: e,
                name: a.name,
            }) && packages[i].package.version == a.version,
    decreases packages.len(),
{
    lemma_private(exclude, e, a.name);
    let out = asked_of(packages, exclude, e);
    if packages.len() > 0 {
        let front = packages.drop_last();
        what_is_not_private_is_asked(front, exclude, e, a);
        let before = asked_of(front, exclude, e);
        let p = packages[packages.len() - 1].package;
        let asked = AskedView { name: p.key.name, version: p.version };
        if out.contains(a) {
            let k = choose|k: int| 0 <= k < out.len() && out[k] == a;
            if k < before.len() {
                assert(before[k] == a);
                assert(before.contains(a));
                let i = choose|i: int|
                    0 <= i < front.len() && (#[trigger] front[i]).package.key == (KeyView {
                        ecosystem: e,
                        name: a.name,
                    }) && front[i].package.version == a.version;
                assert(packages[i] == front[i]);
            } else {
                assert(packages[packages.len() - 1].package.version == a.version);
            }
        }
        if !is_private(exclude, e, a.name) && exists|i: int|
            0 <= i < packages.len() && (#[trigger] packages[i]).package.key == (KeyView {
                ecosystem: e,
                name: a.name,
            }) && packages[i].package.version == a.version {
            let i = choose|i: int|
                0 <= i < packages.len() && (#[trigger] packages[i]).package.key == (KeyView {
                    ecosystem: e,
                    name: a.name,
                }) && packages[i].package.version == a.version;
            if i < front.len() {
                assert(front[i] == packages[i]);
                assert(before.contains(a));
                let k = choose|k: int| 0 <= k < before.len() && before[k] == a;
                assert(out[k] == a);
            } else {
                assert(asked == a);
                if before.contains(a) {
                    let k = choose|k: int| 0 <= k < before.len() && before[k] == a;
                    assert(out[k] == a);
                } else {
                    assert(out[before.len() as int] == a);
                }
            }
        }
    }
}

/// There is one group for each ecosystem that has something to ask, with all
/// that it asks.
pub proof fn each_ecosystem_has_its_group(
    packages: Seq<ExtractedView>,
    exclude: Seq<Seq<char>>,
    e: Ecosystem,
)
    ensures
        ({
            let g = GroupView { ecosystem: e, packages: asked_of(packages, exclude, e) };
            groups_of(packages, exclude).contains(g) <==> asked_of(packages, exclude, e).len() > 0
        }),
        forall|k: int|
            0 <= k < groups_of(packages, exclude).len() ==> (#[trigger] groups_of(
                packages,
                exclude,
            )[k]).packages == asked_of(
                packages,
                exclude,
                groups_of(packages, exclude)[k].ecosystem,
            ) && groups_of(packages, exclude)[k].packages.len() > 0,
{
    let a = crate::api::nonempty_group(
        Ecosystem::Npm,
        asked_of(packages, exclude, Ecosystem::Npm),
    );
    let b = crate::api::nonempty_group(Ecosystem::Go, asked_of(packages, exclude, Ecosystem::Go));
    let c = crate::api::nonempty_group(
        Ecosystem::PyPI,
        asked_of(packages, exclude, Ecosystem::PyPI),
    );
    let d = crate::api::nonempty_group(
        Ecosystem::CratesIo,
        asked_of(packages, exclude, Ecosystem::CratesIo),
    );
    let all = groups_of(packages, exclude);
    assert(all == a + b + c + d);
    assert forall|k: int| 0 <= k < all.len() implies (#[trigger] all[k]).packages == asked_of(
        packages,
        exclude,
        all[k].ecosystem,
    ) && all[k].packages.len() > 0 by {
        let n1 = a.len();
        let n2 = n1 + b.len();
        let n3 = n2 + c.len();
        if k < n1 {
            assert(all[k] == a[k]);
        } else if k < n2 {
            assert(all[k] == b[k - n1]);
        } else if k < n3 {
            assert(all[k] == c[k - n2]);
        } else {
            assert(all[k] == d[k - n3]);
        }
    }
    let g = GroupView { ecosystem: e, packages: asked_of(packages, exclude, e) };
    if g.packages.len() > 0 {
        match e {
            Ecosystem::Npm => {
                assert(all[0] == a[0]);
            },
            Ecosystem::Go => {
                assert(all[a.len() as int] == b[0]);
            },
            Ecosystem::PyPI => {
                assert(all[(a.len() + b.len()) as int] == c[0]);
            },
            Ecosystem::CratesIo => {
                assert(all[(a.len() + b.len() + c.len()) as int] == d[0]);
            },
        }
    }
    if all.contains(g) {
        let k = choose|k: int| 0 <= k < all.len() && all[k] == g;
        assert(all[k].packages.len() > 0);
    }
}

/// A question names its package in its ecosystem, and its version exactly where
/// it is asked about versions.
pub proof fn a_question_names_its_package(e: Ecosystem, a: AskedView, versioned: bool)
    ensures
        query_of(e, a, versioned).name == a.name,
        query_of(e, a, versioned).ecosystem == ecosystem_name(e),
        query_of(e, a, true).version == Some(a.version),
        query_of(e, a, false).version is None,
{
}

// ---- what comes back ----

/// An identifier is taken exactly where it is a name of letters, digits, dots,
/// dashes and underscores that is not too long and leads nowhere else.
pub proof fn an_identifier_is_taken_where_it_is_a_name(id: Seq<char>)
    ensures
        is_safe_id(id) <==> 0 < id.len() <= 128 && id != "."@ && id != ".."@ && (forall|i: int|
            0 <= i < id.len() ==> is_alnum(#[trigger] id[i]) || id[i] == '.' || id[i] == '-'
                || id[i] == '_'),
{
}

/// Of the identifiers that come back every one that is safe is kept, and no
/// other.
pub proof fn safe_identifiers_are_kept(ids: Seq<Seq<char>>, id: Seq<char>)
    ensures
        safe_ids(ids).contains(id) <==> ids.contains(id) && is_safe_id(id),
    decreases ids.len(),
{
    let out = safe_ids(ids);
    if ids.len() > 0 {
        let front = ids.drop_last();
        safe_identifiers_are_kept(front, id);
        let before = safe_ids(front);
        if out.contains(id) {
            let k = choose|k: int| 0 <= k < out.len() && out[k] == id;
            if k < before.len() {
                assert(before[k] == id);
                assert(before.contains(id));
                let i = choose|i: int| 0 <= i < front.len() && front[i] == id;
                assert(ids[i] == id);
            } else {
                assert(ids[ids.len() - 1] == id);
            }
        }
        if ids.contains(id) && is_safe_id(id) {
            let i = choose|i: int| 0 <= i < ids.len() && ids[i] == id;
            if i < front.len() {
                assert(front[i] == id);
                assert(front.contains(id));
                let k = choose|k: int| 0 <= k < before.len() && before[k] == id;
                assert(out[k] == id);
            } else {
                assert(out[before.len() as int] == id);
            }
        }
    }
}

/// An answer is trusted from when it came until its time is up.
pub proof fn an_answer_is_trusted_for_its_time(fetched_at: u64, now: u64, ttl: u64)
    ensures
        is_fresh(fetched_at, now, ttl) <==> ttl > 0 && now < fetched_at + ttl,
{
}

/// What is asked first is every package for which no set is held and whose very
/// version was not found clean, recently.
pub proof fn what_is_not_known_is_asked(
    packages: Seq<AskedView>,
    c: CacheView,
    now: u64,
    ttl: u64,
    k: int,
)
    requires
        0 <= k < packages.len(),
    ensures
        ({
            let a = packages[k];
            let key = a.name + "@"@ + a.version;
            let known = (c.affected.dom().contains(a.name) && is_fresh(
                c.affected[a.name].fetched_at,
                now,
                ttl,
            )) || (c.clean.dom().contains(key) && is_fresh(c.clean[key], now, ttl));
            match first_of_round(packages, c, now, ttl) {
                ActionView::AskVersions(asked) => asked.contains(a) <==> !known,
                ActionView::Nothing => known,
                _ => false,
            }
        }),
{
    lemma_unanswered(packages, c, now, ttl, packages[k]);
    assert(packages.contains(packages[k]));
    let ask = unanswered(packages, c, now, ttl);
    if ask.len() == 0 {
        assert(!ask.contains(packages[k]));
    }
}

proof fn lemma_unanswered(
    packages: Seq<AskedView>,
    c: CacheView,
    now: u64,
    ttl: u64,
    a: AskedView,
)
    ensures
        unanswered(packages, c, now, ttl).contains(a) <==> packages.contains(a) && !is_answered(
            c,
            a,
            now,
            ttl,
        ),
    decreases packages.len(),
{
    let out = unanswered(packages, c, now, ttl);
    if packages.len() > 0 {
        let front = packages.drop_last();
        lemma_unanswered(front, c, now, ttl, a);
        let before = unanswered(front, c, now, ttl);
        if out.contains(a) {
            let k = choose|k: int| 0 <= k < out.len() && out[k] == a;
            if k < before.len() {
                assert(before[k] == a);
                assert(before.contains(a));
                let i = choose|i: int| 0 <= i < front.len() && front[i] == a;
                assert(packages[i] == a);
            } else {
                assert(packages[packages.len() - 1] == a);
            }
        }
        if packages.contains(a) && !is_answered(c, a, now, ttl) {
            let i = choose|i: int| 0 <= i < packages.len() && packages[i] == a;
            if i < front.len() {
                assert(front[i] == a);
                assert(front.contains(a));
                let k = choose|k: int| 0 <= k < before.len() && before[k] == a;
                assert(out[k] == a);
            } else {
                assert(out[before.len() as int] == a);
            }
        }
    }
}

/// A version without advisories is recorded as clean, and the set of a package
/// with any, or with more to come, is asked for.
pub proof fn a_hit_is_looked_at_again(
    asked: Seq<AskedView>,
    hits: Seq<ResultView>,
    c: CacheView,
    now: u64,
    n: nat,
    i: int,
)
    requires
        n <= asked.len(),
        n <= hits.len(),
        0 <= i < n,
    ensures
        hits[i].ids.len() > 0 || hits[i].truncated ==> sifted(asked, hits, c, now, n).1.contains(
            asked[i].name,
        ),
        hits[i].ids.len() == 0 && !hits[i].truncated ==> {
            let after = sifted(asked, hits, c, now, n).0;
            let key = asked[i].name + "@"@ + asked[i].version;
            after.clean.dom().contains(key) && after.clean[key] == now
        },
    decreases n,
{
    let m = (n - 1) as nat;
    let (before, had) = sifted(asked, hits, c, now, m);
    let (after, out) = sifted(asked, hits, c, now, n);
    if i < m {
        a_hit_is_looked_at_again(asked, hits, c, now, m, i);
        if had.contains(asked[i].name) {
            let k = choose|k: int| 0 <= k < had.len() && had[k] == asked[i].name;
            assert(out[k] == asked[i].name);
        }
    } else if hits[i].ids.len() > 0 || hits[i].truncated {
        assert(out[had.len() as int] == asked[i].name);
    }
}

/// A set is recorded as it came, with when it came.
pub proof fn a_set_is_recorded_as_it_came(
    names: Seq<Seq<char>>,
    sets: Seq<ResultView>,
    c: CacheView,
    now: u64,
    n: nat,
    i: int,
)
    requires
        n <= names.len(),
        n <= sets.len(),
        0 <= i < n,
        forall|j: int| i < j < n ==> #[trigger] names[j] != names[i],
    ensures
        ({
            let after = recorded(names, sets, c, now, n).0;
            &&& after.affected.dom().contains(names[i])
            &&& after.affected[names[i]].ids == sets[i].ids
            &&& after.affected[names[i]].fetched_at == now
            &&& sets[i].truncated ==> after.affected[names[i]].truncated
        }),
    decreases n,
{
    if i < n - 1 {
        assert(names[n - 1] != names[i]);
        a_set_is_recorded_as_it_came(names, sets, c, now, (n - 1) as nat, i);
    }
}

/// Advisories are wanted for exactly the packages whose set is held.
pub proof fn advisories_are_wanted_for_what_is_held(
    packages: Seq<AskedView>,
    c: CacheView,
    e: Ecosystem,
    name: Seq<char>,
)
    ensures
        wanted_of(packages, c, e).contains(KeyView { ecosystem: e, name })
            <==> c.affected.dom().contains(name) && exists|i: int|
            0 <= i < packages.len() && (#[trigger] packages[i]).name == name,
    decreases packages.len(),
{
    let key = KeyView { ecosystem: e, name };
    let out = wanted_of(packages, c, e);
    if packages.len() > 0 {
        let front = packages.drop_last();
        advisories_are_wanted_for_what_is_held(front, c, e, name);
        let before = wanted_of(front, c, e);
        if out.contains(key) {
            let k = choose|k: int| 0 <= k < out.len() && out[k] == key;
            if k < before.len() {
                assert(before[k] == key);
                assert(before.contains(key));
                let i = choose|i: int| 0 <= i < front.len() && (#[trigger] front[i]).name == name;
                assert(packages[i].name == name);
            } else {
                assert(packages[packages.len() - 1].name == name);
            }
        }
        if c.affected.dom().contains(name) && exists|i: int|
            0 <= i < packages.len() && (#[trigger] packages[i]).name == name {
            let i = choose|i: int|
                0 <= i < packages.len() && (#[trigger] packages[i]).name == name;
            if i < front.len() {
                assert(front[i].name == name);
                assert(before.contains(key));
                let k = choose|k: int| 0 <= k < before.len() && before[k] == key;
                assert(out[k] == key);
            } else {
                assert(out[before.len() as int] == key);
            }
        }
    }
}

// ---- how a scan goes about it ----

proof fn lemma_among(list: Seq<Ecosystem>, other: Seq<Ecosystem>, wanted: bool, e: Ecosystem)
    ensures
        among(list, other, wanted).contains(e) <==> list.contains(e) && other.contains(e)
            == wanted,
    decreases list.len(),
{
    let out = among(list, other, wanted);
    if list.len() > 0 {
        let front = list.drop_last();
        lemma_among(front, other, wanted, e);
        let before = among(front, other, wanted);
        if out.contains(e) {
            let k = choose|k: int| 0 <= k < out.len() && out[k] == e;
            if k < before.len() {
                assert(before[k] == e);
                assert(before.contains(e));
                let i = choose|i: int| 0 <= i < front.len() && front[i] == e;
                assert(list[i] == e);
            } else {
                assert(list[list.len() - 1] == e);
            }
        }
        if list.contains(e) && other.contains(e) == wanted {
            let i = choose|i: int| 0 <= i < list.len() && list[i] == e;
            if i < front.len() {
                assert(front[i] == e);
                assert(front.contains(e));
                let k = choose|k: int| 0 <= k < before.len() && before[k] == e;
                assert(out[k] == e);
            } else {
                assert(out[before.len() as int] == e);
            }
        }
    }
}

/// Archives that are all there are used, some are used for what they cover with
/// the rest named, and without any the packages are asked about where that is
/// allowed, else the archives are fetched where that is.
pub proof fn a_scan_uses_what_is_there(
    ecosystems: Seq<Ecosystem>,
    present: Seq<Ecosystem>,
    enabled: bool,
    offline: bool,
)
    ensures
        ({
            let all = forall|i: int|
                0 <= i < ecosystems.len() ==> present.contains(#[trigger] ecosystems[i]);
            let some = exists|i: int|
                0 <= i < ecosystems.len() && present.contains(#[trigger] ecosystems[i]);
            match plan_of(ecosystems, present, enabled, offline) {
                PlanView::Nothing => ecosystems.len() == 0,
                PlanView::Archives { refresh } => ecosystems.len() > 0 && all && refresh
                    == !offline,
                PlanView::Partly { ready, missing, fetch } => {
                    &&& !all && some && fetch == !offline
                    &&& forall|e: Ecosystem| #[trigger]
                        ready.contains(e) <==> ecosystems.contains(e) && present.contains(e)
                    &&& forall|e: Ecosystem| #[trigger]
                        missing.contains(e) <==> ecosystems.contains(e) && !present.contains(e)
                },
                PlanView::Online => ecosystems.len() > 0 && !some && enabled && !offline,
                PlanView::Download => ecosystems.len() > 0 && !some && !enabled && !offline,
                PlanView::Refuse => ecosystems.len() > 0 && !some && offline,
            }
        }),
{
    let ready = among(ecosystems, present, true);
    let missing = among(ecosystems, present, false);
    assert forall|e: Ecosystem| #[trigger]
        ready.contains(e) <==> ecosystems.contains(e) && present.contains(e) by {
        lemma_among(ecosystems, present, true, e);
    }
    assert forall|e: Ecosystem| #[trigger]
        missing.contains(e) <==> ecosystems.contains(e) && !present.contains(e) by {
        lemma_among(ecosystems, present, false, e);
    }
    if missing.len() > 0 {
        assert(missing.contains(missing[0]));
        let i = choose|i: int| 0 <= i < ecosystems.len() && ecosystems[i] == missing[0];
        assert(!present.contains(ecosystems[i]));
    } else {
        assert forall|i: int| 0 <= i < ecosystems.len() implies present.contains(
            #[trigger] ecosystems[i],
        ) by {
            assert(ecosystems.contains(ecosystems[i]));
            if !present.contains(ecosystems[i]) {
                assert(missing.contains(ecosystems[i]));
            }
        }
    }
    if ready.len() > 0 {
        assert(ready.contains(ready[0]));
        let i = choose|i: int| 0 <= i < ecosystems.len() && ecosystems[i] == ready[0];
        assert(present.contains(ecosystems[i]));
    } else {
        assert forall|i: int| 0 <= i < ecosystems.len() implies !present.contains(
            #[trigger] ecosystems[i],
        ) by {
            assert(ecosystems.contains(ecosystems[i]));
            if present.contains(ecosystems[i]) {
                assert(ready.contains(ecosystems[i]));
            }
        }
    }
}

/// A partial report is about every package of the ecosystems that are there, in
/// order, and about no other.
pub proof fn what_can_be_checked_is_checked(
    a: Seq<ExtractedView>,
    p: ExtractedView,
    ready: Seq<Ecosystem>,
)
    ensures
        checkable_of(a.push(p), ready) == (if ready.contains(p.package.key.ecosystem) {
            checkable_of(a, ready).push(p)
        } else {
            checkable_of(a, ready)
        }),
        checkable_of(seq![], ready).len() == 0,
{
    assert(a.push(p).drop_last() =~= a);
}

/// The ecosystems in use are those of the packages.
pub proof fn the_ecosystems_in_use_are_those_of_the_packages(
    packages: Seq<ExtractedView>,
    e: Ecosystem,
)
    ensures
        ecosystems_in(packages).contains(e) <==> exists|i: int|
            0 <= i < packages.len() && (#[trigger] packages[i]).package.key.ecosystem == e,
{
    let a = crate::model::if_used(packages, Ecosystem::Npm);
    let b = crate::model::if_used(packages, Ecosystem::Go);
    let c = crate::model::if_used(packages, Ecosystem::PyPI);
    let d = crate::model::if_used(packages, Ecosystem::CratesIo);
    let all = ecosystems_in(packages);
    assert(all =~= a + b + c + d);
    if all.contains(e) {
        let k = choose|k: int| 0 <= k < all.len() && all[k] == e;
        let n1 = a.len();
        let n2 = n1 + b.len();
        let n3 = n2 + c.len();
        if k < n1 {
            assert(all[k] == a[k]);
        } else if k < n2 {
            assert(all[k] == b[k - n1]);
        } else if k < n3 {
            assert(all[k] == c[k - n2]);
        } else {
            assert(all[k] == d[k - n3]);
        }
    }
    if crate::model::uses(packages, e) {
        match e {
            Ecosystem::Npm => {
                assert(all[0] == a[0]);
            },
            Ecosystem::Go => {
                assert(all[a.len() as int] == b[0]);
            },
            Ecosystem::PyPI => {
                assert(all[(a.len() + b.len()) as int] == c[0]);
            },
            Ecosystem::CratesIo => {
                assert(all[(a.len() + b.len() + c.len()) as int] == d[0]);
            },
        }
    }
}

// ---- quick fixes ----

proof fn lemma_ours_with(ds: Seq<SentView>, id: Seq<char>)
    ensures
        match ours_with(ds, id) {
            Some(k) => k < ds.len() && ds[k as int].source == Some("package-checker"@)
                && ds[k as int].code == Some(id) && forall|i: int|
                0 <= i < k ==> !((#[trigger] ds[i]).source == Some("package-checker"@)
                    && ds[i].code == Some(id)),
            None => forall|i: int|
                0 <= i < ds.len() ==> !((#[trigger] ds[i]).source == Some("package-checker"@)
                    && ds[i].code == Some(id)),
        },
    decreases ds.len(),
{
    if ds.len() > 0 {
        let front = ds.drop_last();
        lemma_ours_with(front, id);
        let n = ds.len() - 1;
        match ours_with(front, id) {
            Some(k) => {
                assert(front[k as int] == ds[k as int]);
                assert forall|i: int| 0 <= i < k implies !((#[trigger] ds[i]).source == Some(
                    "package-checker"@,
                ) && ds[i].code == Some(id)) by {
                    assert(front[i] == ds[i]);
                }
            },
            None => {
                assert forall|i: int| 0 <= i < n implies !((#[trigger] ds[i]).source == Some(
                    "package-checker"@,
                ) && ds[i].code == Some(id)) by {
                    assert(front[i] == ds[i]);
                }
            },
        }
    }
}

/// A client asks about a finding by the diagnostic that carries the identifier
/// of its worst advisory, where it sends any of ours; else by the lines that it
/// has selected.
pub proof fn a_client_asks_by_identifier_or_by_line(asking: AskingView, f: FindingView)
    ensures
        ({
            let ours = exists|i: int|
                0 <= i < asking.diagnostics.len() && (#[trigger] asking.diagnostics[i]).source
                    == Some("package-checker"@);
            let named = f.advisories.len() > 0 && exists|i: int|
                0 <= i < asking.diagnostics.len() && (#[trigger] asking.diagnostics[i]).source
                    == Some("package-checker"@) && asking.diagnostics[i].code == Some(
                    f.advisories[0].id,
                );
            let r = anchor_of(f).range;
            selects_of(asking, f) is Some <==> (if ours {
                named
            } else {
                asking.first_line <= r.end.line && r.start.line <= asking.last_line
            })
        }),
{
    let ds = asking.diagnostics;
    if f.advisories.len() > 0 {
        lemma_ours_with(ds, f.advisories[0].id);
    }
    if exists|i: int|
        0 <= i < ds.len() && (#[trigger] ds[i]).source == Some("package-checker"@) {
        let i = choose|i: int|
            0 <= i < ds.len() && (#[trigger] ds[i]).source == Some("package-checker"@);
        assert(is_ours(ds[i]));
    }
    if any_ours(ds) {
        let i = choose|i: int| 0 <= i < ds.len() && is_ours(#[trigger] ds[i]);
        assert(ds[i].source == Some("package-checker"@));
    }
}

/// Each finding that is asked about, has a version that clears it and stands
/// where that can be written is offered one quick fix, in order; no other is.
pub proof fn a_fix_is_offered_where_it_can_be_written(
    path: Seq<char>,
    source: Seq<char>,
    document_version: Option<i32>,
    sightings: Seq<ExtractedView>,
    asking: AskingView,
    encoding: Encoding,
    before: Seq<FindingView>,
    f: FindingView,
)
    ensures
        ({
            let all = upgrades_among(
                path,
                source,
                document_version,
                sightings,
                asking,
                encoding,
                before.push(f),
            );
            let earlier = upgrades_among(
                path,
                source,
                document_version,
                sightings,
                asking,
                encoding,
                before,
            );
            let place = version_span_of(sightings, f);
            if f.fix is Clears && selects_of(asking, f) is Some && place is Some {
                &&& all.len() == earlier.len() + 1
                &&& all.drop_last() == earlier
                &&& all.last().new_text == f.fix->Clears_0
                &&& all.last().document_version == document_version
                &&& all.last().range == crate::diagnostics::recoded(
                    place->Some_0,
                    crate::text::plain_lines_of(source),
                    encoding,
                )
            } else {
                all == earlier
            }
        }),
{
    assert(before.push(f).drop_last() =~= before);
    let all = upgrades_among(
        path,
        source,
        document_version,
        sightings,
        asking,
        encoding,
        before.push(f),
    );
    let earlier = upgrades_among(
        path,
        source,
        document_version,
        sightings,
        asking,
        encoding,
        before,
    );
    if f.fix is Clears && selects_of(asking, f) is Some && version_span_of(sightings, f) is Some {
        assert(all.drop_last() =~= earlier);
    }
}

/// A version is written where the declaration that the finding is shown on says
/// it; where that has moved, only where the package is declared just once.
pub proof fn a_version_is_written_where_it_is_declared(
    sightings: Seq<ExtractedView>,
    f: FindingView,
    k: int,
)
    requires
        0 <= k < sightings.len(),
        sightings[k].package.key == f.package.key,
        ({
            ||| sightings[k].evidence.range == anchor_of(f).range && forall|i: int|
                0 <= i < k ==> !((#[trigger] sightings[i]).package.key == f.package.key
                    && sightings[i].evidence.range == anchor_of(f).range)
            ||| forall|i: int|
                0 <= i < sightings.len() && i != k ==> (#[trigger] sightings[i]).package.key
                    != f.package.key
        }),
    ensures
        version_span_of(sightings, f) == sightings[k].version_span,
{
    let key = f.package.key;
    let range = anchor_of(f).range;
    if sightings[k].evidence.range == range && forall|i: int|
        0 <= i < k ==> !((#[trigger] sightings[i]).package.key == key
            && sightings[i].evidence.range == range) {
        lemma_named_at(sightings, key, range, k);
    } else {
        if sightings[k].evidence.range == range {
            assert forall|i: int| 0 <= i < k implies !((#[trigger] sightings[i]).package.key == key
                && sightings[i].evidence.range == range) by {}
            lemma_named_at(sightings, key, range, k);
        } else {
            assert forall|i: int| 0 <= i < sightings.len() implies !((
            #[trigger] sightings[i]).package.key == key && sightings[i].evidence.range
                == range) by {}
            lemma_named_nowhere(sightings, key, range);
            lemma_only(sightings, key, k);
        }
    }
}

proof fn lemma_named_at(all: Seq<ExtractedView>, key: KeyView, range: Range, k: int)
    requires
        0 <= k < all.len(),
        all[k].package.key == key && all[k].evidence.range == range,
        forall|i: int|
            0 <= i < k ==> !((#[trigger] all[i]).package.key == key && all[i].evidence.range
                == range),
    ensures
        named_at(all, key, range) == Some(all[k]),
    decreases k,
{
    if k > 0 {
        let rest = all.skip(1);
        assert(!(all[0].package.key == key && all[0].evidence.range == range));
        assert(rest[k - 1] == all[k]);
        assert forall|i: int| 0 <= i < k - 1 implies !((#[trigger] rest[i]).package.key == key
            && rest[i].evidence.range == range) by {
            assert(rest[i] == all[i + 1]);
        }
        lemma_named_at(rest, key, range, k - 1);
    }
}

proof fn lemma_named_nowhere(all: Seq<ExtractedView>, key: KeyView, range: Range)
    requires
        forall|i: int|
            0 <= i < all.len() ==> !((#[trigger] all[i]).package.key == key
                && all[i].evidence.range == range),
    ensures
        named_at(all, key, range) is None,
    decreases all.len(),
{
    if all.len() > 0 {
        let rest = all.skip(1);
        assert(!(all[0].package.key == key && all[0].evidence.range == range));
        assert forall|i: int| 0 <= i < rest.len() implies !((#[trigger] rest[i]).package.key == key
            && rest[i].evidence.range == range) by {
            assert(rest[i] == all[i + 1]);
        }
        lemma_named_nowhere(rest, key, range);
    }
}

proof fn lemma_only(all: Seq<ExtractedView>, key: KeyView, k: int)
    requires
        0 <= k < all.len(),
        all[k].package.key == key,
        forall|i: int|
            0 <= i < all.len() && i != k ==> (#[trigger] all[i]).package.key != key,
    ensures
        all_named(all, key) == seq![all[k]],
    decreases all.len(),
{
    let front = all.drop_last();
    if k < front.len() {
        assert(front[k] == all[k]);
        assert forall|i: int| 0 <= i < front.len() && i != k implies (
        #[trigger] front[i]).package.key != key by {
            assert(front[i] == all[i]);
        }
        lemma_only(front, key, k);
        assert(all[all.len() - 1].package.key != key);
    } else {
        assert forall|i: int| 0 <= i < front.len() implies (#[trigger] front[i]).package.key
            != key by {
            assert(front[i] == all[i]);
        }
        lemma_none(front, key);
        assert(all_named(all, key) =~= seq![all[k]]);
    }
}

proof fn lemma_none(all: Seq<ExtractedView>, key: KeyView)
    requires
        forall|i: int| 0 <= i < all.len() ==> (#[trigger] all[i]).package.key != key,
    ensures
        all_named(all, key).len() == 0,
    decreases all.len(),
{
    if all.len() > 0 {
        let front = all.drop_last();
        assert forall|i: int| 0 <= i < front.len() implies (#[trigger] front[i]).package.key
            != key by {
            assert(front[i] == all[i]);
        }
        lemma_none(front, key);
        assert(all[all.len() - 1].package.key != key);
    }
}

/// The title of a quick fix names the package and the version, and says that the
/// lockfile is left as it is exactly where the version comes from there.
pub proof fn a_title_names_the_package_and_the_version(
    f: FindingView,
    target: Seq<char>,
    path: Seq<char>,
)
    ensures
        ("Update "@ + f.package.key.name + " to "@ + target).is_prefix_of(
            title_of(f, target, path),
        ),
        !is_elsewhere(f) ==> title_of(f, target, path) == "Update "@ + f.package.key.name + " to "@
            + target,
        is_elsewhere(f) ==> exists|head: Seq<char>| #[trigger]
            (head + " (lockfile not updated)"@) == title_of(f, target, path),
{
    let head = "Update "@ + f.package.key.name + " to "@ + target;
    let t = title_of(f, target, path);
    assert(t.take(head.len() as int) =~= head);
    if is_elsewhere(f) {
        let more = head + " in "@ + (if crate::path::name_of(path).len() > 0 {
            crate::path::name_of(path)
        } else {
            "the manifest"@
        });
        assert(more + " (lockfile not updated)"@ == t);
    }
}

} // verus!
