//! Advisories for the packages a project actually depends on, over the network.
//!
//! The archive path downloads every advisory for every package. This asks
//! osv.dev about the few hundred packages in hand instead, keeps the answers,
//! and refreshes them on a time limit.
//!
//! Only a package's name, ecosystem and version ever leave the machine, and
//! only for packages `Config::may_send` allows.
//!
//! # What has to hold
//!
//! For every package that ends up with a finding, the index must hold that
//! package's **complete** advisory set, not just the advisories matching the
//! installed version: a candidate upgrade is checked by asking the index what
//! else affects that package. That is why a hit is followed by a second,
//! *unversioned* query. Where even that comes back truncated, the package is
//! reported as partial and the fix is withheld rather than guessed.
use crate::config::{sendable, Config};
use crate::model::{
    ecosystem_name, Ecosystem, ExtractedPackage, ExtractedView, KeyView, PackageKey,
};
use crate::text::{alnum, chars, contains, copy_strings, decimal, is_alnum, number, same};
use vstd::prelude::*;

verus! {

/// The documented ceiling on one batch request.
pub const BATCH_LIMIT: usize = 1000;

pub const API_HOST: &'static str = "https://api.osv.dev";

/// Records are served from the same bucket the archives come from, one file per
/// advisory, in the identical format.
pub const RECORD_HOST: &'static str = "https://osv-vulnerabilities.storage.googleapis.com";

/// Why the network gave no answer.
#[derive(Clone, PartialEq, Eq, Debug)]
pub enum ApiError {
    /// The request itself failed.
    Query(String),
    /// The server refused it.
    Status { status: u16, url: String },
    /// The server's answer makes no sense.
    Malformed(String),
}

/// What an [`ApiError`] says.
pub enum ApiErrorView {
    Query(Seq<char>),
    Status { status: u16, url: Seq<char> },
    Malformed(Seq<char>),
}

impl DeepView for ApiError {
    type V = ApiErrorView;

    open spec fn deep_view(&self) -> ApiErrorView {
        match self {
            ApiError::Query(s) => ApiErrorView::Query(s@),
            ApiError::Status { status, url } => ApiErrorView::Status { status: *status, url: url@ },
            ApiError::Malformed(s) => ApiErrorView::Malformed(s@),
        }
    }
}

/// An error as a sentence.
pub open spec fn error_text(e: ApiErrorView) -> Seq<char> {
    match e {
        ApiErrorView::Query(s) => "query osv.dev: "@ + s,
        ApiErrorView::Status { status, url } => "osv.dev returned "@ + decimal(status as nat)
            + " for "@ + url,
        ApiErrorView::Malformed(s) => "osv.dev sent "@ + s,
    }
}

impl ApiError {
    /// The error as a sentence.
    pub fn describe(&self) -> (r: String)
        ensures
            r@ == error_text(self.deep_view()),
    {
        match self {
            ApiError::Query(s) => "query osv.dev: ".to_owned().concat(s.as_str()),
            ApiError::Status { status, url } => "osv.dev returned ".to_owned().concat(
                number(*status as u64).as_str(),
            ).concat(" for ").concat(url.as_str()),
            ApiError::Malformed(s) => "osv.dev sent ".to_owned().concat(s.as_str()),
        }
    }
}

// ---- what is asked ----

/// A package to ask about.
#[derive(Clone, PartialEq, Eq, Debug)]
pub struct Asked {
    pub name: String,
    pub version: String,
}

/// What an [`Asked`] says.
pub struct AskedView {
    pub name: Seq<char>,
    pub version: Seq<char>,
}

impl DeepView for Asked {
    type V = AskedView;

    open spec fn deep_view(&self) -> AskedView {
        AskedView { name: self.name@, version: self.version@ }
    }
}

impl Asked {
    pub fn copy(&self) -> (r: Asked)
        ensures
            r.deep_view() == self.deep_view(),
    {
        Asked { name: self.name.clone(), version: self.version.clone() }
    }
}

/// The packages to ask about in one ecosystem.
#[derive(Clone, Debug)]
pub struct Group {
    pub ecosystem: Ecosystem,
    pub packages: Vec<Asked>,
}

/// What a [`Group`] says.
pub struct GroupView {
    pub ecosystem: Ecosystem,
    pub packages: Seq<AskedView>,
}

impl DeepView for Group {
    type V = GroupView;

    open spec fn deep_view(&self) -> GroupView {
        GroupView { ecosystem: self.ecosystem, packages: self.packages.deep_view() }
    }
}

/// The packages of an ecosystem that may be sent, each version once.
pub open spec fn asked_of(
    packages: Seq<ExtractedView>,
    exclude: Seq<Seq<char>>,
    e: Ecosystem,
) -> Seq<AskedView>
    decreases packages.len(),
{
    if packages.len() == 0 {
        seq![]
    } else {
        let before = asked_of(packages.drop_last(), exclude, e);
        let p = packages.last().package;
        let asked = AskedView { name: p.key.name, version: p.version };
        if p.key.ecosystem == e && sendable(exclude, e, p.key.name) && !before.contains(asked) {
            before.push(asked)
        } else {
            before
        }
    }
}

pub open spec fn nonempty_group(e: Ecosystem, packages: Seq<AskedView>) -> Seq<GroupView> {
    if packages.len() == 0 {
        seq![]
    } else {
        seq![GroupView { ecosystem: e, packages }]
    }
}

/// Packages worth asking about, by ecosystem.
pub open spec fn groups_of(packages: Seq<ExtractedView>, exclude: Seq<Seq<char>>) -> Seq<
    GroupView,
> {
    nonempty_group(Ecosystem::Npm, asked_of(packages, exclude, Ecosystem::Npm)) + nonempty_group(
        Ecosystem::Go,
        asked_of(packages, exclude, Ecosystem::Go),
    ) + nonempty_group(Ecosystem::PyPI, asked_of(packages, exclude, Ecosystem::PyPI))
        + nonempty_group(Ecosystem::CratesIo, asked_of(packages, exclude, Ecosystem::CratesIo))
}

fn is_asked(list: &Vec<Asked>, name: &str, version: &str) -> (r: bool)
    ensures
        r == list.deep_view().contains(AskedView { name: name@, version: version@ }),
{
    let ghost x = AskedView { name: name@, version: version@ };
    let mut i: usize = 0;
    while i < list.len()
        invariant
            i <= list@.len(),
            x == (AskedView { name: name@, version: version@ }),
            forall|j: int| 0 <= j < i ==> #[trigger] list.deep_view()[j] != x,
        decreases list@.len() - i,
    {
        if same(list[i].name.as_str(), name) && same(list[i].version.as_str(), version) {
            proof {
                assert(list.deep_view()[i as int] == x);
            }
            return true;
        }
        i += 1;
    }
    false
}

fn push_asked(list: &mut Vec<Asked>, a: Asked)
    ensures
        final(list).deep_view() == old(list).deep_view().push(a.deep_view()),
{
    let ghost before = list.deep_view();
    list.push(a);
    proof {
        assert(list.deep_view() =~= before.push(a.deep_view()));
    }
}

fn ask_in(packages: &[ExtractedPackage], config: &Config, e: Ecosystem) -> (r: Vec<Asked>)
    ensures
        r.deep_view() == asked_of(
            crate::matcher::extracted_views(packages@),
            config.online.exclude.deep_view(),
            e,
        ),
{
    let ghost all = crate::matcher::extracted_views(packages@);
    let ghost exclude = config.online.exclude.deep_view();
    let mut out: Vec<Asked> = Vec::new();
    let mut i: usize = 0;
    proof {
        assert(out.deep_view() =~= seq![]);
    }
    while i < packages.len()
        invariant
            i <= packages@.len(),
            all == crate::matcher::extracted_views(packages@),
            exclude == config.online.exclude.deep_view(),
            out.deep_view() == asked_of(all.take(i as int), exclude, e),
        decreases packages@.len() - i,
    {
        let p = &packages[i].package;
        proof {
            assert(all.take(i + 1).drop_last() =~= all.take(i as int));
            assert(all.take(i + 1).last() == packages@[i as int].deep_view());
        }
        if p.ecosystem() == e && config.may_send(e, p.name()) && !is_asked(
            &out,
            p.name(),
            p.version.as_str(),
        ) {
            push_asked(
                &mut out,
                Asked { name: p.key.name.clone(), version: p.version.clone() },
            );
        }
        i += 1;
    }
    proof {
        assert(all.take(i as int) =~= all);
    }
    out
}

fn push_group(out: &mut Vec<Group>, ecosystem: Ecosystem, packages: Vec<Asked>)
    ensures
        final(out).deep_view() == old(out).deep_view() + nonempty_group(
            ecosystem,
            packages.deep_view(),
        ),
{
    let ghost before = out.deep_view();
    if packages.len() > 0 {
        let g = Group { ecosystem, packages };
        out.push(g);
        proof {
            assert(out.deep_view() =~= before + seq![g.deep_view()]);
        }
    } else {
        proof {
            assert(before + nonempty_group(ecosystem, packages.deep_view()) =~= before);
        }
    }
}

/// Packages worth asking about, grouped by ecosystem and deduplicated.
pub fn group_by_ecosystem(packages: &[ExtractedPackage], config: &Config) -> (r: Vec<Group>)
    ensures
        r.deep_view() == groups_of(
            crate::matcher::extracted_views(packages@),
            config.online.exclude.deep_view(),
        ),
{
    let mut out: Vec<Group> = Vec::new();
    proof {
        assert(out.deep_view() =~= seq![]);
    }
    push_group(&mut out, Ecosystem::Npm, ask_in(packages, config, Ecosystem::Npm));
    push_group(&mut out, Ecosystem::Go, ask_in(packages, config, Ecosystem::Go));
    push_group(&mut out, Ecosystem::PyPI, ask_in(packages, config, Ecosystem::PyPI));
    push_group(&mut out, Ecosystem::CratesIo, ask_in(packages, config, Ecosystem::CratesIo));
    proof {
        assert(out.deep_view() =~= groups_of(
            crate::matcher::extracted_views(packages@),
            config.online.exclude.deep_view(),
        ));
    }
    out
}

/// Only what may be sent is asked about, and each version once.
pub proof fn only_sendable_packages_are_asked(
    packages: Seq<ExtractedView>,
    exclude: Seq<Seq<char>>,
    e: Ecosystem,
)
    ensures
        asked_of(packages, exclude, e).no_duplicates(),
        forall|i: int|
            0 <= i < asked_of(packages, exclude, e).len() ==> sendable(
                exclude,
                e,
                (#[trigger] asked_of(packages, exclude, e)[i]).name,
            ),
    decreases packages.len(),
{
    if packages.len() > 0 {
        only_sendable_packages_are_asked(packages.drop_last(), exclude, e);
        let before = asked_of(packages.drop_last(), exclude, e);
        let out = asked_of(packages, exclude, e);
        assert forall|i: int| 0 <= i < out.len() implies sendable(
            exclude,
            e,
            (#[trigger] out[i]).name,
        ) by {
            if i < before.len() {
                assert(out[i] == before[i]);
            }
        }
    }
}

// ---- the cache ----

/// A package's advisory set, and when it was learnt.
#[derive(Clone, Debug)]
pub struct Affected {
    pub name: String,
    pub ids: Vec<String>,
    pub fetched_at: u64,
    /// Whether the set could not be retrieved in full.
    pub truncated: bool,
}

/// When a package was last confirmed clean at a version.
#[derive(Clone, Debug)]
pub struct Clean {
    /// `name@version`.
    pub key: String,
    pub at: u64,
}

/// What is known of the packages of one ecosystem.
#[derive(Clone, Debug)]
pub struct Cache {
    /// By package name alone, because the set is version-independent.
    pub affected: Vec<Affected>,
    /// By version as well, because a bump has to be asked about again.
    pub clean: Vec<Clean>,
}

/// An advisory set, when it was learnt, and whether it is incomplete.
pub struct AffectedView {
    pub ids: Seq<Seq<char>>,
    pub fetched_at: u64,
    pub truncated: bool,
}

/// What a [`Cache`] knows.
pub struct CacheView {
    pub affected: Map<Seq<char>, AffectedView>,
    pub clean: Map<Seq<char>, u64>,
}

pub open spec fn affected_map(v: Seq<Affected>) -> Map<Seq<char>, AffectedView>
    decreases v.len(),
{
    if v.len() == 0 {
        Map::empty()
    } else {
        affected_map(v.drop_last()).insert(
            v.last().name@,
            AffectedView {
                ids: v.last().ids.deep_view(),
                fetched_at: v.last().fetched_at,
                truncated: v.last().truncated,
            },
        )
    }
}

pub open spec fn clean_map(v: Seq<Clean>) -> Map<Seq<char>, u64>
    decreases v.len(),
{
    if v.len() == 0 {
        Map::empty()
    } else {
        clean_map(v.drop_last()).insert(v.last().key@, v.last().at)
    }
}

impl View for Cache {
    type V = CacheView;

    open spec fn view(&self) -> CacheView {
        CacheView { affected: affected_map(self.affected@), clean: clean_map(self.clean@) }
    }
}

pub open spec fn clean_key_of(name: Seq<char>, version: Seq<char>) -> Seq<char> {
    name + "@"@ + version
}

/// Whether an answer is recent enough.
pub open spec fn is_fresh(fetched_at: u64, now: u64, ttl: u64) -> bool {
    (if now > fetched_at { now - fetched_at } else { 0 }) < ttl
}

pub fn fresh(fetched_at: u64, now: u64, ttl: u64) -> (r: bool)
    ensures
        r == is_fresh(fetched_at, now, ttl),
{
    now.saturating_sub(fetched_at) < ttl
}

/// Whether a package's set is held and recent, complete or not.
pub open spec fn holds_affected(c: CacheView, name: Seq<char>, now: u64, ttl: u64) -> bool {
    c.affected.dom().contains(name) && is_fresh(c.affected[name].fetched_at, now, ttl)
}

/// Whether this exact version was confirmed clean, recently.
pub open spec fn holds_clean(
    c: CacheView,
    name: Seq<char>,
    version: Seq<char>,
    now: u64,
    ttl: u64,
) -> bool {
    let key = clean_key_of(name, version);
    c.clean.dom().contains(key) && is_fresh(c.clean[key], now, ttl)
}

pub open spec fn with_clean(c: CacheView, name: Seq<char>, version: Seq<char>, now: u64) -> CacheView {
    CacheView {
        affected: c.affected.remove(name),
        clean: c.clean.insert(clean_key_of(name, version), now),
    }
}

pub open spec fn with_set(
    c: CacheView,
    name: Seq<char>,
    ids: Seq<Seq<char>>,
    truncated: bool,
    now: u64,
) -> CacheView {
    CacheView {
        affected: c.affected.insert(name, AffectedView { ids, fetched_at: now, truncated }),
        clean: c.clean,
    }
}

pub open spec fn with_affected(
    c: CacheView,
    name: Seq<char>,
    ids: Seq<Seq<char>>,
    now: u64,
) -> CacheView {
    with_set(c, name, ids, false, now)
}

/// Whether an incomplete set is held for a package.
pub open spec fn is_incomplete(c: CacheView, name: Seq<char>) -> bool {
    c.affected.dom().contains(name) && c.affected[name].truncated
}

fn clean_key(name: &str, version: &str) -> (r: String)
    ensures
        r@ == clean_key_of(name@, version@),
{
    name.to_owned().concat("@").concat(version)
}

/// Where a package stands in a list, the last place that does.
fn find_affected(v: &Vec<Affected>, name: &str) -> (r: Option<usize>)
    ensures
        match r {
            Some(i) => i < v@.len() && affected_map(v@).dom().contains(name@) && affected_map(
                v@,
            )[name@] == (AffectedView {
                ids: v@[i as int].ids.deep_view(),
                fetched_at: v@[i as int].fetched_at,
                truncated: v@[i as int].truncated,
            }),
            None => !affected_map(v@).dom().contains(name@),
        },
{
    let mut i: usize = 0;
    let mut found: Option<usize> = None;
    while i < v.len()
        invariant
            i <= v@.len(),
            match found {
                Some(k) => k < v@.len() && affected_map(v@.take(i as int)).dom().contains(name@)
                    && affected_map(v@.take(i as int))[name@] == (AffectedView {
                    ids: v@[k as int].ids.deep_view(),
                    fetched_at: v@[k as int].fetched_at,
                    truncated: v@[k as int].truncated,
                }),
                None => !affected_map(v@.take(i as int)).dom().contains(name@),
            },
        decreases v@.len() - i,
    {
        proof {
            assert(v@.take(i + 1).drop_last() =~= v@.take(i as int));
        }
        if same(v[i].name.as_str(), name) {
            found = Some(i);
        }
        i += 1;
    }
    proof {
        assert(v@.take(i as int) =~= v@);
    }
    found
}

/// A list without a package.
fn without_affected(v: &Vec<Affected>, name: &str) -> (r: Vec<Affected>)
    ensures
        affected_map(r@) == affected_map(v@).remove(name@),
{
    let mut out: Vec<Affected> = Vec::new();
    let mut i: usize = 0;
    proof {
        assert(affected_map(out@) =~= affected_map(v@.take(0)).remove(name@));
    }
    while i < v.len()
        invariant
            i <= v@.len(),
            affected_map(out@) == affected_map(v@.take(i as int)).remove(name@),
        decreases v@.len() - i,
    {
        let ghost before = out@;
        proof {
            assert(v@.take(i + 1).drop_last() =~= v@.take(i as int));
        }
        if !same(v[i].name.as_str(), name) {
            let copy = Affected {
                name: v[i].name.clone(),
                ids: copy_strings(&v[i].ids),
                fetched_at: v[i].fetched_at,
                truncated: v[i].truncated,
            };
            out.push(copy);
            proof {
                assert(out@.drop_last() =~= before);
                assert(affected_map(out@) =~= affected_map(v@.take(i + 1)).remove(name@));
            }
        } else {
            proof {
                assert(affected_map(out@) =~= affected_map(v@.take(i + 1)).remove(name@));
            }
        }
        i += 1;
    }
    proof {
        assert(v@.take(i as int) =~= v@);
    }
    out
}

impl Cache {
    /// A cache that knows nothing.
    pub fn new() -> (r: Cache)
        ensures
            r@.affected == Map::<Seq<char>, AffectedView>::empty(),
            r@.clean == Map::<Seq<char>, u64>::empty(),
    {
        Cache { affected: Vec::new(), clean: Vec::new() }
    }

    pub fn fresh_affected(&self, name: &str, now: u64, ttl: u64) -> (r: bool)
        ensures
            r == holds_affected(self@, name@, now, ttl),
    {
        match find_affected(&self.affected, name) {
            Some(i) => fresh(self.affected[i].fetched_at, now, ttl),
            None => false,
        }
    }

    pub fn fresh_clean(&self, name: &str, version: &str, now: u64, ttl: u64) -> (r: bool)
        ensures
            r == holds_clean(self@, name@, version@, now, ttl),
    {
        let key = clean_key(name, version);
        let v = &self.clean;
        let mut i: usize = 0;
        let mut found: Option<u64> = None;
        while i < v.len()
            invariant
                i <= v@.len(),
                match found {
                    Some(at) => clean_map(v@.take(i as int)).dom().contains(key@) && clean_map(
                        v@.take(i as int),
                    )[key@] == at,
                    None => !clean_map(v@.take(i as int)).dom().contains(key@),
                },
            decreases v@.len() - i,
        {
            proof {
                assert(v@.take(i + 1).drop_last() =~= v@.take(i as int));
            }
            if same(v[i].key.as_str(), key.as_str()) {
                found = Some(v[i].at);
            }
            i += 1;
        }
        proof {
            assert(v@.take(i as int) =~= v@);
        }
        match found {
            Some(at) => fresh(at, now, ttl),
            None => false,
        }
    }

    /// Records that a package is clean at a version, which takes back that it
    /// is affected.
    pub fn mark_clean(&mut self, name: &str, version: &str, now: u64)
        ensures
            final(self)@ == with_clean(old(self)@, name@, version@, now),
    {
        let ghost before = self@;
        self.affected = without_affected(&self.affected, name);
        let ghost kept = self.clean@;
        let key = clean_key(name, version);
        let ghost k = key@;
        let mut clean: Vec<Clean> = Vec::new();
        let mut i: usize = 0;
        proof {
            assert(clean_map(clean@) =~= clean_map(kept.take(0)).remove(k));
        }
        while i < self.clean.len()
            invariant
                i <= self.clean@.len(),
                self.clean@ == kept,
                k == key@,
                clean_map(clean@) == clean_map(kept.take(i as int)).remove(k),
                affected_map(self.affected@) == before.affected.remove(name@),
            decreases self.clean@.len() - i,
        {
            let ghost so_far = clean@;
            proof {
                assert(kept.take(i + 1).drop_last() =~= kept.take(i as int));
            }
            if !same(self.clean[i].key.as_str(), key.as_str()) {
                clean.push(Clean { key: self.clean[i].key.clone(), at: self.clean[i].at });
                proof {
                    assert(clean@.drop_last() =~= so_far);
                }
            }
            proof {
                assert(clean_map(clean@) =~= clean_map(kept.take(i + 1)).remove(k));
            }
            i += 1;
        }
        let ghost so_far = clean@;
        clean.push(Clean { key, at: now });
        proof {
            assert(kept.take(i as int) =~= kept);
            assert(clean@.drop_last() =~= so_far);
            assert(clean_map(clean@) =~= before.clean.insert(k, now));
        }
        self.clean = clean;
    }

    /// Records a package's complete advisory set.
    pub fn mark_affected(&mut self, name: &str, ids: Vec<String>, now: u64)
        ensures
            final(self)@ == with_affected(old(self)@, name@, ids.deep_view(), now),
    {
        self.mark_set(name, ids, false, now);
    }

    /// Records a package's advisory set, and whether it is incomplete.
    pub fn mark_set(&mut self, name: &str, ids: Vec<String>, truncated: bool, now: u64)
        ensures
            final(self)@ == with_set(old(self)@, name@, ids.deep_view(), truncated, now),
    {
        let ghost before = self@;
        let mut affected = without_affected(&self.affected, name);
        let ghost so_far = affected@;
        affected.push(Affected { name: name.to_owned(), ids, fetched_at: now, truncated });
        proof {
            assert(affected@.drop_last() =~= so_far);
            assert(affected_map(affected@) =~= before.affected.insert(
                name@,
                AffectedView { ids: ids.deep_view(), fetched_at: now, truncated },
            ));
        }
        self.affected = affected;
    }

    /// Whether a package is known to be affected, however long ago.
    pub fn is_affected(&self, name: &str) -> (r: bool)
        ensures
            r == self@.affected.dom().contains(name@),
    {
        find_affected(&self.affected, name).is_some()
    }

    /// Whether the set that is held for a package is incomplete.
    pub fn is_truncated(&self, name: &str) -> (r: bool)
        ensures
            r == is_incomplete(self@, name@),
    {
        match find_affected(&self.affected, name) {
            Some(i) => self.affected[i].truncated,
            None => false,
        }
    }
}

/// A clean answer is about one version: what is known of every other version
/// of the package stays as it was.
pub proof fn a_clean_answer_is_about_one_version(
    c: CacheView,
    name: Seq<char>,
    version: Seq<char>,
    other: Seq<char>,
    now: u64,
    ttl: u64,
)
    requires
        version != other,
    ensures
        holds_clean(with_clean(c, name, version, now), name, other, now, ttl) == holds_clean(
            c,
            name,
            other,
            now,
            ttl,
        ),
{
    let a = clean_key_of(name, version);
    let b = clean_key_of(name, other);
    if a == b {
        let n = (name + "@"@).len() as int;
        assert(a.skip(n) =~= version);
        assert(b.skip(n) =~= other);
    }
}

/// A package that is confirmed clean is no longer affected, and one whose
/// advisories were learnt now is answered for as long as an answer is trusted.
pub proof fn the_last_answer_stands(
    c: CacheView,
    name: Seq<char>,
    version: Seq<char>,
    ids: Seq<Seq<char>>,
    now: u64,
    ttl: u64,
)
    requires
        ttl > 0,
    ensures
        !with_clean(c, name, version, now).affected.dom().contains(name),
        holds_clean(with_clean(c, name, version, now), name, version, now, ttl),
        holds_affected(with_affected(c, name, ids, now), name, now, ttl),
{
}

// ---- one round of questions ----

/// What the server says of one package.
#[derive(Clone, Debug)]
pub struct QueryResult {
    pub ids: Vec<String>,
    /// Whether the list is incomplete.
    pub truncated: bool,
}

/// What a [`QueryResult`] says.
pub struct ResultView {
    pub ids: Seq<Seq<char>>,
    pub truncated: bool,
}

impl DeepView for QueryResult {
    type V = ResultView;

    open spec fn deep_view(&self) -> ResultView {
        ResultView { ids: self.ids.deep_view(), truncated: self.truncated }
    }
}

/// Whether a package is answered already: its set is held, or this
/// exact version was confirmed clean.
pub open spec fn is_answered(c: CacheView, a: AskedView, now: u64, ttl: u64) -> bool {
    holds_affected(c, a.name, now, ttl) || holds_clean(c, a.name, a.version, now, ttl)
}

pub open spec fn unanswered(packages: Seq<AskedView>, c: CacheView, now: u64, ttl: u64) -> Seq<
    AskedView,
>
    decreases packages.len(),
{
    if packages.len() == 0 {
        seq![]
    } else if is_answered(c, packages.last(), now, ttl) {
        unanswered(packages.drop_last(), c, now, ttl)
    } else {
        unanswered(packages.drop_last(), c, now, ttl).push(packages.last())
    }
}

pub open spec fn is_clean_result(r: ResultView) -> bool {
    r.ids.len() == 0 && !r.truncated
}

/// What the answers to versioned questions leave: those that came back clean
/// are recorded, and the rest are worth a second look.
pub open spec fn sifted(
    asked: Seq<AskedView>,
    hits: Seq<ResultView>,
    c: CacheView,
    now: u64,
    n: nat,
) -> (CacheView, Seq<Seq<char>>)
    decreases n,
{
    if n == 0 {
        (c, seq![])
    } else {
        let i = n - 1;
        let (before, affected) = sifted(asked, hits, c, now, i as nat);
        if is_clean_result(hits[i]) {
            (with_clean(before, asked[i].name, asked[i].version, now), affected)
        } else {
            (before, affected.push(asked[i].name))
        }
    }
}

/// What the answers to unversioned questions leave: each package's set, and the
/// packages whose set could not be retrieved in full. A package that was asked
/// about twice is incomplete where one of the answers was.
pub open spec fn recorded(
    names: Seq<Seq<char>>,
    sets: Seq<ResultView>,
    c: CacheView,
    now: u64,
    n: nat,
) -> (CacheView, Seq<Seq<char>>)
    decreases n,
{
    if n == 0 {
        (c, seq![])
    } else {
        let i = n - 1;
        let (before, partial) = recorded(names, sets, c, now, i as nat);
        (
            with_set(
                before,
                names[i],
                sets[i].ids,
                sets[i].truncated || partial.contains(names[i]),
                now,
            ),
            if sets[i].truncated { partial.push(names[i]) } else { partial },
        )
    }
}

pub open spec fn shorter(a: nat, b: nat) -> nat {
    if a < b {
        a
    } else {
        b
    }
}

/// The packages of a list that are known to be affected.
pub open spec fn wanted_of(packages: Seq<AskedView>, c: CacheView, e: Ecosystem) -> Seq<KeyView>
    decreases packages.len(),
{
    if packages.len() == 0 {
        seq![]
    } else {
        let before = wanted_of(packages.drop_last(), c, e);
        if c.affected.dom().contains(packages.last().name) {
            before.push(KeyView { ecosystem: e, name: packages.last().name })
        } else {
            before
        }
    }
}

/// What to do next to bring a cache up to date.
#[derive(Clone, Debug)]
pub enum Action {
    /// Ask which of these versions have advisories at all.
    AskVersions(Vec<Asked>),
    /// Ask for the complete advisory set of these packages.
    AskSets(Vec<String>),
    /// Fetch the records that these packages' sets name.
    FetchRecords(Vec<String>),
    /// Nothing: every package is answered.
    Nothing,
}

/// What an [`Action`] says.
pub enum ActionView {
    AskVersions(Seq<AskedView>),
    AskSets(Seq<Seq<char>>),
    FetchRecords(Seq<Seq<char>>),
    Nothing,
}

impl DeepView for Action {
    type V = ActionView;

    open spec fn deep_view(&self) -> ActionView {
        match self {
            Action::AskVersions(a) => ActionView::AskVersions(a.deep_view()),
            Action::AskSets(n) => ActionView::AskSets(n.deep_view()),
            Action::FetchRecords(n) => ActionView::FetchRecords(n.deep_view()),
            Action::Nothing => ActionView::Nothing,
        }
    }
}

/// What to ask first: which of the unanswered versions have advisories at all,
/// the cheap filter that says which packages are worth a second look.
pub fn first_action(packages: &Vec<Asked>, cache: &Cache, now: u64, ttl: u64) -> (r: Action)
    ensures
        r.deep_view() == first_of_round(packages.deep_view(), cache@, now, ttl),
{
    let ghost all = packages.deep_view();
    let mut ask: Vec<Asked> = Vec::new();
    let mut i: usize = 0;
    proof {
        assert(ask.deep_view() =~= seq![]);
    }
    while i < packages.len()
        invariant
            i <= packages@.len(),
            all == packages.deep_view(),
            ask.deep_view() == unanswered(all.take(i as int), cache@, now, ttl),
        decreases packages@.len() - i,
    {
        let p = &packages[i];
        proof {
            assert(all.take(i + 1).drop_last() =~= all.take(i as int));
            assert(all.take(i + 1).last() == p.deep_view());
        }
        if !cache.fresh_affected(p.name.as_str(), now, ttl) && !cache.fresh_clean(
            p.name.as_str(),
            p.version.as_str(),
            now,
            ttl,
        ) {
            push_asked(&mut ask, p.copy());
        }
        i += 1;
    }
    proof {
        assert(all.take(i as int) =~= all);
    }
    if ask.len() == 0 {
        Action::Nothing
    } else {
        Action::AskVersions(ask)
    }
}

fn push_name(list: &mut Vec<String>, name: &str)
    ensures
        final(list).deep_view() == old(list).deep_view().push(name@),
{
    let ghost before = list.deep_view();
    list.push(name.to_owned());
    proof {
        assert(list.deep_view() =~= before.push(name@));
    }
}

/// What to ask once the versions were answered: the complete set of each
/// package that was hit, which is what makes a verified fix possible. Where
/// none was, there are still no records to fetch.
pub fn versions_answered(
    cache: &mut Cache,
    asked: &Vec<Asked>,
    hits: &Vec<QueryResult>,
    now: u64,
) -> (r: Action)
    ensures
        ({
            let n = shorter(asked@.len(), hits@.len());
            let (c, affected) = sifted(asked.deep_view(), hits.deep_view(), old(cache)@, now, n);
            &&& final(cache)@ == c
            &&& r.deep_view() == (if affected.len() == 0 {
                ActionView::FetchRecords(affected)
            } else {
                ActionView::AskSets(affected)
            })
        }),
{
    let ghost start = cache@;
    let ghost a = asked.deep_view();
    let ghost h = hits.deep_view();
    let mut affected: Vec<String> = Vec::new();
    let mut i: usize = 0;
    proof {
        assert(affected.deep_view() =~= seq![]);
    }
    while i < asked.len() && i < hits.len()
        invariant
            i <= asked@.len(),
            i <= hits@.len(),
            a == asked.deep_view(),
            h == hits.deep_view(),
            (cache@, affected.deep_view()) == sifted(a, h, start, now, i as nat),
        decreases asked@.len() - i,
    {
        proof {
            assert(a[i as int] == asked@[i as int].deep_view());
            assert(h[i as int] == hits@[i as int].deep_view());
        }
        if hits[i].ids.len() == 0 && !hits[i].truncated {
            cache.mark_clean(asked[i].name.as_str(), asked[i].version.as_str(), now);
        } else {
            push_name(&mut affected, asked[i].name.as_str());
        }
        i += 1;
    }
    if affected.len() == 0 {
        Action::FetchRecords(affected)
    } else {
        Action::AskSets(affected)
    }
}

/// Records the sets. Returns the packages whose set could not be retrieved in
/// full; that is recorded too, so that [`partial`] names them for as long as the
/// set is held.
pub fn sets_answered(
    cache: &mut Cache,
    names: &Vec<String>,
    sets: &Vec<QueryResult>,
    now: u64,
) -> (partial: Vec<String>)
    ensures
        ({
            let n = shorter(names@.len(), sets@.len());
            (final(cache)@, partial.deep_view()) == recorded(
                names.deep_view(),
                sets.deep_view(),
                old(cache)@,
                now,
                n,
            )
        }),
{
    let ghost start = cache@;
    let ghost ns = names.deep_view();
    let ghost ss = sets.deep_view();
    let mut partial: Vec<String> = Vec::new();
    let mut i: usize = 0;
    proof {
        assert(partial.deep_view() =~= seq![]);
    }
    while i < names.len() && i < sets.len()
        invariant
            i <= names@.len(),
            i <= sets@.len(),
            ns == names.deep_view(),
            ss == sets.deep_view(),
            (cache@, partial.deep_view()) == recorded(ns, ss, start, now, i as nat),
        decreases names@.len() - i,
    {
        proof {
            assert(ns[i as int] == names@[i as int]@);
            assert(ss[i as int] == sets@[i as int].deep_view());
        }
        let truncated = sets[i].truncated || contains(&partial, names[i].as_str());
        if sets[i].truncated {
            push_name(&mut partial, names[i].as_str());
        }
        cache.mark_set(names[i].as_str(), copy_strings(&sets[i].ids), truncated, now);
        i += 1;
    }
    partial
}

/// The packages that have at least one advisory, which is the set whose
/// records are needed.
pub fn wanted(packages: &Vec<Asked>, cache: &Cache, ecosystem: Ecosystem) -> (r: Vec<PackageKey>)
    ensures
        r.deep_view() == wanted_of(packages.deep_view(), cache@, ecosystem),
{
    let ghost all = packages.deep_view();
    let mut out: Vec<PackageKey> = Vec::new();
    let mut i: usize = 0;
    proof {
        assert(out.deep_view() =~= seq![]);
    }
    while i < packages.len()
        invariant
            i <= packages@.len(),
            all == packages.deep_view(),
            out.deep_view() == wanted_of(all.take(i as int), cache@, ecosystem),
        decreases packages@.len() - i,
    {
        let name = packages[i].name.as_str();
        let ghost before = out.deep_view();
        proof {
            assert(all.take(i + 1).drop_last() =~= all.take(i as int));
            assert(all.take(i + 1).last().name == name@);
        }
        if cache.is_affected(name) {
            let key = PackageKey::new(ecosystem, name);
            out.push(key);
            proof {
                assert(out.deep_view() =~= before.push(key.deep_view()));
            }
        }
        i += 1;
    }
    proof {
        assert(all.take(i as int) =~= all);
    }
    out
}

/// The packages of a list whose set is held and incomplete.
pub open spec fn partial_of(packages: Seq<AskedView>, c: CacheView, e: Ecosystem) -> Seq<KeyView>
    decreases packages.len(),
{
    if packages.len() == 0 {
        seq![]
    } else {
        let before = partial_of(packages.drop_last(), c, e);
        if is_incomplete(c, packages.last().name) {
            before.push(KeyView { ecosystem: e, name: packages.last().name })
        } else {
            before
        }
    }
}

/// The packages whose set is held and incomplete, whenever it was learnt: no
/// fix may be claimed for those, because verifying a candidate needs the
/// complete set. One that is asked about in several versions is named for each.
pub fn partial(packages: &Vec<Asked>, cache: &Cache, ecosystem: Ecosystem) -> (r: Vec<PackageKey>)
    ensures
        r.deep_view() == partial_of(packages.deep_view(), cache@, ecosystem),
{
    let ghost all = packages.deep_view();
    let mut out: Vec<PackageKey> = Vec::new();
    let mut i: usize = 0;
    proof {
        assert(out.deep_view() =~= seq![]);
    }
    while i < packages.len()
        invariant
            i <= packages@.len(),
            all == packages.deep_view(),
            out.deep_view() == partial_of(all.take(i as int), cache@, ecosystem),
        decreases packages@.len() - i,
    {
        let name = packages[i].name.as_str();
        let ghost before = out.deep_view();
        proof {
            assert(all.take(i + 1).drop_last() =~= all.take(i as int));
            assert(all.take(i + 1).last().name == name@);
        }
        if cache.is_truncated(name) {
            let key = PackageKey::new(ecosystem, name);
            out.push(key);
            proof {
                assert(out.deep_view() =~= before.push(key.deep_view()));
            }
        }
        i += 1;
    }
    proof {
        assert(all.take(i as int) =~= all);
    }
    out
}

/// A package whose set is held and incomplete is named on every round, also one
/// in which nothing is asked: no fix is ever claimed from an incomplete set.
pub proof fn an_incomplete_set_stays_partial(
    packages: Seq<AskedView>,
    c: CacheView,
    e: Ecosystem,
    k: int,
)
    requires
        0 <= k < packages.len(),
    ensures
        is_incomplete(c, packages[k].name) <==> partial_of(packages, c, e).contains(
            KeyView { ecosystem: e, name: packages[k].name },
        ),
    decreases packages.len(),
{
    let key = KeyView { ecosystem: e, name: packages[k].name };
    lemma_partial(packages, c, e, packages[k].name);
    if is_incomplete(c, packages[k].name) {
        let front = packages.drop_last();
        let before = partial_of(front, c, e);
        let out = partial_of(packages, c, e);
        if k < front.len() {
            assert(front[k] == packages[k]);
            an_incomplete_set_stays_partial(front, c, e, k);
            let i = choose|i: int| 0 <= i < before.len() && before[i] == key;
            assert(out[i] == key);
        } else {
            assert(out[before.len() as int] == key);
        }
    }
}

proof fn lemma_partial(packages: Seq<AskedView>, c: CacheView, e: Ecosystem, name: Seq<char>)
    ensures
        partial_of(packages, c, e).contains(KeyView { ecosystem: e, name }) ==> is_incomplete(
            c,
            name,
        ),
    decreases packages.len(),
{
    if packages.len() > 0 {
        lemma_partial(packages.drop_last(), c, e, name);
        let before = partial_of(packages.drop_last(), c, e);
        let out = partial_of(packages, c, e);
        let key = KeyView { ecosystem: e, name };
        if out.contains(key) {
            let i = choose|i: int| 0 <= i < out.len() && out[i] == key;
            if i < before.len() {
                assert(before[i] == key);
            }
        }
    }
}

proof fn lemma_recorded(
    names: Seq<Seq<char>>,
    sets: Seq<ResultView>,
    c: CacheView,
    now: u64,
    n: nat,
)
    requires
        n <= names.len(),
        n <= sets.len(),
    ensures
        forall|i: int|
            0 <= i < n ==> recorded(names, sets, c, now, n).0.affected.dom().contains(
                #[trigger] names[i],
            ),
        forall|i: int|
            0 <= i < n && (#[trigger] sets[i]).truncated ==> recorded(
                names,
                sets,
                c,
                now,
                n,
            ).1.contains(names[i]),
        forall|i: int|
            0 <= i < n ==> is_incomplete(
                recorded(names, sets, c, now, n).0,
                #[trigger] names[i],
            ) == recorded(names, sets, c, now, n).1.contains(names[i]),
    decreases n,
{
    if n > 0 {
        lemma_recorded(names, sets, c, now, (n - 1) as nat);
        let (before, partial) = recorded(names, sets, c, now, (n - 1) as nat);
        let (after, out) = recorded(names, sets, c, now, n);
        assert forall|i: int| 0 <= i < n && (#[trigger] sets[i]).truncated implies out.contains(
            names[i],
        ) by {
            if i < n - 1 {
                assert(partial.contains(names[i]));
                let k = choose|k: int| 0 <= k < partial.len() && partial[k] == names[i];
                assert(out[k] == names[i]);
            } else {
                assert(out[partial.len() as int] == names[i]);
            }
        }
        let last = names[n - 1];
        assert forall|x: Seq<char>| #[trigger] out.contains(x) == (partial.contains(x) || (sets[n
            - 1].truncated && x == last)) by {
            if partial.contains(x) {
                let k = choose|k: int| 0 <= k < partial.len() && partial[k] == x;
                assert(out[k] == x);
            }
            if out.contains(x) {
                let k = choose|k: int| 0 <= k < out.len() && out[k] == x;
                if k < partial.len() {
                    assert(partial[k] == x);
                }
            }
        }
    }
}

/// Every package whose set was asked for is recorded, and every one whose set
/// came back truncated is recorded as incomplete and reported as partial.
pub proof fn a_truncated_set_is_partial(
    names: Seq<Seq<char>>,
    sets: Seq<ResultView>,
    c: CacheView,
    now: u64,
    i: int,
)
    requires
        names.len() == sets.len(),
        0 <= i < names.len(),
    ensures
        recorded(names, sets, c, now, names.len()).0.affected.dom().contains(names[i]),
        sets[i].truncated ==> recorded(names, sets, c, now, names.len()).1.contains(names[i]),
        sets[i].truncated ==> is_incomplete(
            recorded(names, sets, c, now, names.len()).0,
            names[i],
        ),
{
    lemma_recorded(names, sets, c, now, names.len());
}

// ---- a whole round ----

/// What is asked first.
pub open spec fn first_of_round(packages: Seq<AskedView>, c: CacheView, now: u64, ttl: u64) -> ActionView {
    let ask = unanswered(packages, c, now, ttl);
    if ask.len() == 0 {
        ActionView::Nothing
    } else {
        ActionView::AskVersions(ask)
    }
}

/// What follows from an action that was carried out: what is held then, what to
/// do next, and the packages whose set could not be retrieved in full.
pub open spec fn carried_out(
    action: ActionView,
    answers: Seq<ResultView>,
    c: CacheView,
    now: u64,
) -> (CacheView, ActionView, Seq<Seq<char>>) {
    match action {
        ActionView::AskVersions(asked) => {
            let (after, affected) = sifted(
                asked,
                answers,
                c,
                now,
                shorter(asked.len(), answers.len()),
            );
            (
                after,
                if affected.len() == 0 {
                    ActionView::FetchRecords(affected)
                } else {
                    ActionView::AskSets(affected)
                },
                seq![],
            )
        },
        ActionView::AskSets(names) => {
            let (after, partial) = recorded(
                names,
                answers,
                c,
                now,
                shorter(names.len(), answers.len()),
            );
            (after, ActionView::FetchRecords(names), partial)
        },
        ActionView::FetchRecords(_) => (c, ActionView::Nothing, seq![]),
        ActionView::Nothing => (c, ActionView::Nothing, seq![]),
    }
}

/// Takes in the answers to an action that was carried out, none where it asks
/// nothing. Returns what to do next, and the packages whose set could not be
/// retrieved in full.
pub fn resolve(cache: &mut Cache, action: &Action, answers: &Vec<QueryResult>, now: u64) -> (r: (
    Action,
    Vec<String>,
))
    ensures
        (final(cache)@, r.0.deep_view(), r.1.deep_view()) == carried_out(
            action.deep_view(),
            answers.deep_view(),
            old(cache)@,
            now,
        ),
{
    let none: Vec<String> = Vec::new();
    proof {
        assert(none.deep_view() =~= seq![]);
    }
    match action {
        Action::AskVersions(asked) => {
            let next = versions_answered(cache, asked, answers, now);
            (next, none)
        },
        Action::AskSets(names) => {
            let partial = sets_answered(cache, names, answers, now);
            (Action::FetchRecords(copy_strings(names)), partial)
        },
        Action::FetchRecords(_) => (Action::Nothing, none),
        Action::Nothing => (Action::Nothing, none),
    }
}

/// What is held after a round: `hits` are the answers to what was asked first,
/// and `sets` those to what was asked then, if anything was.
pub open spec fn round_of(
    packages: Seq<AskedView>,
    c: CacheView,
    hits: Seq<ResultView>,
    sets: Seq<ResultView>,
    now: u64,
    ttl: u64,
) -> CacheView {
    let (middle, next, _) = carried_out(first_of_round(packages, c, now, ttl), hits, c, now);
    carried_out(next, sets, middle, now).0
}

proof fn lemma_sifted_keeps(
    asked: Seq<AskedView>,
    hits: Seq<ResultView>,
    c: CacheView,
    now: u64,
    n: nat,
    name: Seq<char>,
)
    requires
        n <= asked.len(),
        forall|i: int| 0 <= i < n ==> (#[trigger] asked[i]).name != name,
        c.affected.dom().contains(name),
    ensures
        sifted(asked, hits, c, now, n).0.affected.dom().contains(name),
        sifted(asked, hits, c, now, n).0.affected[name] == c.affected[name],
        !sifted(asked, hits, c, now, n).1.contains(name),
    decreases n,
{
    if n > 0 {
        let i = (n - 1) as nat;
        lemma_sifted_keeps(asked, hits, c, now, i, name);
        let had = sifted(asked, hits, c, now, i).1;
        let out = sifted(asked, hits, c, now, n).1;
        assert(asked[i as int].name != name);
        if out.contains(name) {
            let k = choose|k: int| 0 <= k < out.len() && out[k] == name;
            if k < had.len() {
                assert(had[k] == name);
            }
        }
    }
}

proof fn lemma_recorded_keeps(
    names: Seq<Seq<char>>,
    sets: Seq<ResultView>,
    c: CacheView,
    now: u64,
    n: nat,
    name: Seq<char>,
)
    requires
        n <= names.len(),
        !names.contains(name),
        c.affected.dom().contains(name),
    ensures
        recorded(names, sets, c, now, n).0.affected.dom().contains(name),
        recorded(names, sets, c, now, n).0.affected[name] == c.affected[name],
    decreases n,
{
    if n > 0 {
        lemma_recorded_keeps(names, sets, c, now, (n - 1) as nat, name);
        assert(names[n - 1] != name);
    }
}

/// A round leaves a set that is held and recent as it is, whatever else is
/// asked and answered: it is asked about no package again whose set is held.
pub proof fn a_held_set_is_left_alone(
    packages: Seq<AskedView>,
    c: CacheView,
    hits: Seq<ResultView>,
    sets: Seq<ResultView>,
    now: u64,
    ttl: u64,
    name: Seq<char>,
)
    requires
        holds_affected(c, name, now, ttl),
    ensures
        round_of(packages, c, hits, sets, now, ttl).affected.dom().contains(name),
        round_of(packages, c, hits, sets, now, ttl).affected[name] == c.affected[name],
{
    let asked = unanswered(packages, c, now, ttl);
    lemma_unanswered(packages, c, now, ttl);
    assert forall|i: int| 0 <= i < asked.len() implies (#[trigger] asked[i]).name != name by {
        assert(!is_answered(c, asked[i], now, ttl));
    }
    let n = shorter(asked.len(), hits.len());
    lemma_sifted_keeps(asked, hits, c, now, n, name);
    let (middle, affected) = sifted(asked, hits, c, now, n);
    lemma_recorded_keeps(affected, sets, middle, now, shorter(affected.len(), sets.len()), name);
}

/// A package whose set came back truncated in a round is named as partial in
/// that round and in every later one, for as long as the set is trusted: no fix
/// is claimed for it meanwhile. `names` are the packages whose set was asked for
/// in the first round, and the `i`th of them is the package.
pub proof fn a_truncated_set_is_partial_in_later_rounds(
    c: CacheView,
    names: Seq<Seq<char>>,
    sets: Seq<ResultView>,
    now: u64,
    i: int,
    packages: Seq<AskedView>,
    k: int,
    more_hits: Seq<ResultView>,
    more_sets: Seq<ResultView>,
    later: u64,
    ttl: u64,
    e: Ecosystem,
)
    requires
        names.len() == sets.len(),
        0 <= i < names.len(),
        sets[i].truncated,
        is_fresh(now, later, ttl),
        0 <= k < packages.len(),
        packages[k].name == names[i],
    ensures
        ({
            let held = carried_out(ActionView::AskSets(names), sets, c, now).0;
            let after = round_of(packages, held, more_hits, more_sets, later, ttl);
            let key = KeyView { ecosystem: e, name: names[i] };
            &&& partial_of(packages, held, e).contains(key)
            &&& partial_of(packages, after, e).contains(key)
            &&& after.affected[names[i]] == held.affected[names[i]]
        }),
{
    let held = carried_out(ActionView::AskSets(names), sets, c, now).0;
    lemma_recorded(names, sets, c, now, names.len());
    lemma_recorded_held(names, sets, c, now, 1, names.len());
    assert(recorded(names, sets, c, now, names.len()).1.contains(names[i]));
    assert(holds_affected(held, names[i], now, 1));
    a_held_set_is_left_alone(packages, held, more_hits, more_sets, later, ttl, names[i]);
    an_incomplete_set_stays_partial(packages, held, e, k);
    an_incomplete_set_stays_partial(
        packages,
        round_of(packages, held, more_hits, more_sets, later, ttl),
        e,
        k,
    );
}

/// The packages of a round whose complete set is asked for, as questions
/// without a version.
pub open spec fn without_versions(names: Seq<Seq<char>>) -> Seq<AskedView> {
    Seq::new(names.len(), |i: int| AskedView { name: names[i], version: seq![] })
}

/// What an action asks, and whether about versions.
pub fn questions(action: &Action) -> (r: Option<(Vec<Asked>, bool)>)
    ensures
        match action.deep_view() {
            ActionView::AskVersions(asked) => r matches Some((list, versioned))
                && list.deep_view() == asked && versioned,
            ActionView::AskSets(names) => r matches Some((list, versioned)) && list.deep_view()
                == without_versions(names) && !versioned,
            _ => r is None,
        },
{
    match action {
        Action::AskVersions(asked) => {
            let ghost all = asked.deep_view();
            let mut out: Vec<Asked> = Vec::new();
            let mut i: usize = 0;
            while i < asked.len()
                invariant
                    i <= asked@.len(),
                    all == asked.deep_view(),
                    out.deep_view() =~= all.take(i as int),
                decreases asked@.len() - i,
            {
                proof {
                    assert(all[i as int] == asked@[i as int].deep_view());
                    assert(all.take(i + 1) =~= all.take(i as int).push(all[i as int]));
                }
                push_asked(&mut out, asked[i].copy());
                i += 1;
            }
            proof {
                assert(all.take(i as int) =~= all);
            }
            Some((out, true))
        },
        Action::AskSets(names) => {
            let ghost all = names.deep_view();
            let mut out: Vec<Asked> = Vec::new();
            let mut i: usize = 0;
            while i < names.len()
                invariant
                    i <= names@.len(),
                    all == names.deep_view(),
                    out.deep_view() =~= without_versions(all.take(i as int)),
                decreases names@.len() - i,
            {
                let version = String::new();
                proof {
                    assert(version@ =~= seq![]);
                    assert(all[i as int] == names@[i as int]@);
                    assert(without_versions(all.take(i + 1)) =~= without_versions(
                        all.take(i as int),
                    ).push(AskedView { name: all[i as int], version: seq![] }));
                }
                push_asked(&mut out, Asked { name: names[i].clone(), version });
                i += 1;
            }
            proof {
                assert(all.take(i as int) =~= all);
            }
            Some((out, false))
        },
        _ => None,
    }
}

// ---- the wire ----

/// One question on the wire.
#[derive(Clone, Debug)]
pub struct Query {
    pub name: String,
    pub ecosystem: String,
    pub version: Option<String>,
}

/// What a [`Query`] says.
pub struct QueryView {
    pub name: Seq<char>,
    pub ecosystem: Seq<char>,
    pub version: Option<Seq<char>>,
}

impl DeepView for Query {
    type V = QueryView;

    open spec fn deep_view(&self) -> QueryView {
        QueryView {
            name: self.name@,
            ecosystem: self.ecosystem@,
            version: self.version.deep_view(),
        }
    }
}

pub open spec fn query_of(e: Ecosystem, a: AskedView, versioned: bool) -> QueryView {
    QueryView {
        name: a.name,
        ecosystem: ecosystem_name(e),
        version: if versioned { Some(a.version) } else { None },
    }
}

/// The questions of a request, cut at the documented limit.
pub open spec fn batches_of(packages: Seq<AskedView>, e: Ecosystem, versioned: bool) -> Seq<
    Seq<QueryView>,
>
    decreases packages.len(),
{
    if packages.len() == 0 {
        seq![]
    } else {
        let n = if packages.len() > BATCH_LIMIT { BATCH_LIMIT as int } else {
            packages.len() as int
        };
        seq![Seq::new(n as nat, |i: int| query_of(e, packages[i], versioned))] + batches_of(
            packages.skip(n),
            e,
            versioned,
        )
    }
}

/// The questions of a request, cut at the documented limit.
pub fn batches(packages: &Vec<Asked>, ecosystem: Ecosystem, versioned: bool) -> (r: Vec<Vec<Query>>)
    ensures
        r.deep_view() == batches_of(packages.deep_view(), ecosystem, versioned),
{
    let ghost all = packages.deep_view();
    let mut out: Vec<Vec<Query>> = Vec::new();
    let mut at: usize = 0;
    let len: usize = packages.len();
    proof {
        assert(all.skip(0) =~= all);
        assert(out.deep_view() + batches_of(all, ecosystem, versioned) =~= batches_of(
            all,
            ecosystem,
            versioned,
        ));
    }
    while at < len
        invariant
            at <= len,
            len == packages@.len(),
            all == packages.deep_view(),
            out.deep_view() + batches_of(all.skip(at as int), ecosystem, versioned) == batches_of(
                all,
                ecosystem,
                versioned,
            ),
        decreases len - at,
    {
        let n: usize = if len - at > BATCH_LIMIT { BATCH_LIMIT } else { len - at };
        let ghost rest = all.skip(at as int);
        let ghost want = Seq::new(n as nat, |i: int| query_of(ecosystem, rest[i], versioned));
        let mut batch: Vec<Query> = Vec::new();
        while batch.len() < n
            invariant
                batch@.len() <= n,
                at + n <= len,
                len == packages@.len(),
                all == packages.deep_view(),
                rest == all.skip(at as int),
                want == Seq::new(n as nat, |i: int| query_of(ecosystem, rest[i], versioned)),
                forall|k: int|
                    0 <= k < batch@.len() ==> (#[trigger] batch@[k]).deep_view() == want[k],
            decreases n - batch@.len(),
        {
            let p = &packages[at + batch.len()];
            proof {
                assert(rest[batch@.len() as int] == p.deep_view());
            }
            batch.push(
                Query {
                    name: p.name.clone(),
                    ecosystem: ecosystem.as_str().to_owned(),
                    version: if versioned { Some(p.version.clone()) } else { None },
                },
            );
        }
        let ghost before = out.deep_view();
        proof {
            assert(batch.deep_view() =~= want);
        }
        out.push(batch);
        proof {
            assert(out.deep_view() =~= before.push(want));
            assert(rest.skip(n as int) =~= all.skip(at + n));
            assert(before + (seq![want] + batches_of(rest.skip(n as int), ecosystem, versioned))
                =~= out.deep_view() + batches_of(all.skip(at + n), ecosystem, versioned));
        }
        at = at + n;
    }
    proof {
        assert(out.deep_view() + batches_of(all.skip(at as int), ecosystem, versioned)
            =~= out.deep_view());
    }
    out
}

/// No request is empty or over the limit.
pub proof fn batches_respect_the_limit(packages: Seq<AskedView>, e: Ecosystem, versioned: bool)
    ensures
        forall|i: int|
            0 <= i < batches_of(packages, e, versioned).len() ==> 0 < (#[trigger] batches_of(
                packages,
                e,
                versioned,
            )[i]).len() <= BATCH_LIMIT,
    decreases packages.len(),
{
    if packages.len() > 0 {
        let n = if packages.len() > BATCH_LIMIT { BATCH_LIMIT as int } else {
            packages.len() as int
        };
        batches_respect_the_limit(packages.skip(n), e, versioned);
        let rest = batches_of(packages.skip(n), e, versioned);
        let out = batches_of(packages, e, versioned);
        assert forall|i: int| 0 <= i < out.len() implies 0 < (#[trigger] out[i]).len()
            <= BATCH_LIMIT by {
            if i > 0 {
                assert(out[i] == rest[i - 1]);
            }
        }
    }
}

/// Some lists of questions, one after the other.
pub open spec fn joined_batches(batches: Seq<Seq<QueryView>>) -> Seq<QueryView>
    decreases batches.len(),
{
    if batches.len() == 0 {
        seq![]
    } else {
        batches[0] + joined_batches(batches.skip(1))
    }
}

/// Every package is asked about once, in order: the requests together are the
/// questions.
pub proof fn batches_ask_everything(packages: Seq<AskedView>, e: Ecosystem, versioned: bool)
    ensures
        joined_batches(batches_of(packages, e, versioned)) == Seq::new(
            packages.len(),
            |i: int| query_of(e, packages[i], versioned),
        ),
    decreases packages.len(),
{
    let want = Seq::new(packages.len(), |i: int| query_of(e, packages[i], versioned));
    let out = batches_of(packages, e, versioned);
    if packages.len() == 0 {
        assert(joined_batches(out) =~= want);
    } else {
        let n = if packages.len() > BATCH_LIMIT { BATCH_LIMIT as int } else {
            packages.len() as int
        };
        batches_ask_everything(packages.skip(n), e, versioned);
        assert(out.skip(1) =~= batches_of(packages.skip(n), e, versioned));
        assert(joined_batches(out) =~= want);
    }
}

/// Whether an identifier is safe to use as a file name and a URL segment:
/// alphanumerics, dots, dashes and underscores, and not a directory.
pub open spec fn is_safe_id(id: Seq<char>) -> bool {
    &&& 0 < id.len() <= 128
    &&& id != "."@
    &&& id != ".."@
    &&& forall|i: int|
        0 <= i < id.len() ==> is_alnum(#[trigger] id[i]) || id[i] == '.' || id[i] == '-' || id[i]
            == '_'
}

/// Whether an identifier is safe to use as a file name and a URL segment.
///
/// Anything else is refused rather than sanitised: `..` would walk out of the
/// cache directory, and an id that is not recognised is one there is no
/// business fetching.
pub fn is_valid_osv_id(id: &str) -> (r: bool)
    ensures
        r == is_safe_id(id@),
{
    let all = chars(id);
    if all.len() == 0 || all.len() > 128 || same(id, ".") || same(id, "..") {
        return false;
    }
    let mut i: usize = 0;
    while i < all.len()
        invariant
            i <= all@.len(),
            all@ == id@,
            forall|j: int|
                0 <= j < i ==> is_alnum(#[trigger] id@[j]) || id@[j] == '.' || id@[j] == '-'
                    || id@[j] == '_',
        decreases all@.len() - i,
    {
        let c: char = all[i];
        if !(alnum(c) || c == '.' || c == '-' || c == '_') {
            proof {
                assert(!(is_alnum(id@[i as int]) || id@[i as int] == '.' || id@[i as int] == '-'
                    || id@[i as int] == '_'));
            }
            return false;
        }
        i += 1;
    }
    true
}

/// An identifier that passes holds nothing that could lead out of a directory.
pub proof fn a_safe_id_names_one_file(id: Seq<char>, i: int)
    requires
        is_safe_id(id),
        0 <= i < id.len(),
    ensures
        id[i] != '/',
        id[i] != '\\',
        id[i] != ':',
        id[i] != '\0',
{
    assert(is_alnum(id[i]) || id[i] == '.' || id[i] == '-' || id[i] == '_');
}

/// What the server says of one package, as it comes off the wire.
#[derive(Clone, Debug)]
pub struct BatchResult {
    pub ids: Vec<String>,
    /// Whether there is a further page.
    pub more: bool,
}

/// What a [`BatchResult`] says.
pub struct BatchView {
    pub ids: Seq<Seq<char>>,
    pub more: bool,
}

impl DeepView for BatchResult {
    type V = BatchView;

    open spec fn deep_view(&self) -> BatchView {
        BatchView { ids: self.ids.deep_view(), more: self.more }
    }
}

pub open spec fn safe_ids(ids: Seq<Seq<char>>) -> Seq<Seq<char>>
    decreases ids.len(),
{
    if ids.len() == 0 {
        seq![]
    } else if is_safe_id(ids.last()) {
        safe_ids(ids.drop_last()).push(ids.last())
    } else {
        safe_ids(ids.drop_last())
    }
}

pub open spec fn result_of(b: BatchView) -> ResultView {
    ResultView { ids: safe_ids(b.ids), truncated: b.more }
}

pub open spec fn mismatch_text(results: nat, queries: nat) -> Seq<char> {
    decimal(results) + " results for "@ + decimal(queries) + " queries"@
}

fn keep_safe(ids: &Vec<String>) -> (r: Vec<String>)
    ensures
        r.deep_view() == safe_ids(ids.deep_view()),
{
    let ghost all = ids.deep_view();
    let mut out: Vec<String> = Vec::new();
    let mut i: usize = 0;
    proof {
        assert(out.deep_view() =~= seq![]);
    }
    while i < ids.len()
        invariant
            i <= ids@.len(),
            all == ids.deep_view(),
            out.deep_view() == safe_ids(all.take(i as int)),
        decreases ids@.len() - i,
    {
        proof {
            assert(all.take(i + 1).drop_last() =~= all.take(i as int));
            assert(all.take(i + 1).last() == ids@[i as int]@);
        }
        if is_valid_osv_id(ids[i].as_str()) {
            push_name(&mut out, ids[i].as_str());
        }
        i += 1;
    }
    proof {
        assert(all.take(i as int) =~= all);
    }
    out
}

/// Where every batch is sent.
pub open spec fn query_url_of() -> Seq<char> {
    API_HOST@ + "/v1/querybatch"@
}

pub fn query_url() -> (r: String)
    ensures
        r@ == query_url_of(),
{
    API_HOST.to_owned().concat("/v1/querybatch")
}

/// Whether the server accepted a batch.
pub fn check_status(status: u16) -> (r: Result<(), ApiError>)
    ensures
        match r {
            Ok(_) => status == 200,
            Err(e) => status != 200 && e.deep_view() == (ApiErrorView::Status {
                status,
                url: query_url_of(),
            }),
        },
{
    if status == 200 {
        Ok(())
    } else {
        Err(ApiError::Status { status, url: query_url() })
    }
}

/// The answers to one batch.
///
/// Results are positional. A length mismatch means there is no telling which
/// answer belongs to which package, and guessing would misattribute a
/// vulnerability. Identifiers that are not safe to fetch are dropped.
pub fn read_batch(queries: usize, results: &Vec<BatchResult>) -> (r: Result<
    Vec<QueryResult>,
    ApiError,
>)
    ensures
        match r {
            Ok(out) => results@.len() == queries && out.deep_view() == Seq::new(
                results@.len(),
                |i: int| result_of(results.deep_view()[i]),
            ),
            Err(e) => results@.len() != queries && e.deep_view() == ApiErrorView::Malformed(
                mismatch_text(results@.len(), queries as nat),
            ),
        },
{
    if results.len() != queries {
        return Err(
            ApiError::Malformed(
                number(results.len() as u64).concat(" results for ").concat(
                    number(queries as u64).as_str(),
                ).concat(" queries"),
            ),
        );
    }
    let ghost all = results.deep_view();
    let ghost want = Seq::new(all.len(), |i: int| result_of(all[i]));
    let mut out: Vec<QueryResult> = Vec::new();
    let mut i: usize = 0;
    while i < results.len()
        invariant
            i <= results@.len(),
            all == results.deep_view(),
            want == Seq::new(all.len(), |i: int| result_of(all[i])),
            out@.len() == i,
            forall|k: int| 0 <= k < i ==> (#[trigger] out@[k]).deep_view() == want[k],
        decreases results@.len() - i,
    {
        proof {
            assert(all[i as int] == results@[i as int].deep_view());
        }
        out.push(QueryResult { ids: keep_safe(&results[i].ids), truncated: results[i].more });
        i += 1;
    }
    proof {
        assert(out.deep_view() =~= want);
    }
    Ok(out)
}

// ---- records ----

/// The identifiers of a list that are not in another yet, each once.
pub open spec fn with_ids(known: Seq<Seq<char>>, ids: Seq<Seq<char>>) -> Seq<Seq<char>>
    decreases ids.len(),
{
    if ids.len() == 0 {
        known
    } else {
        let before = with_ids(known, ids.drop_last());
        if before.contains(ids.last()) {
            before
        } else {
            before.push(ids.last())
        }
    }
}

/// The records that some packages' sets name, each once.
pub open spec fn records_of(names: Seq<Seq<char>>, c: CacheView) -> Seq<Seq<char>>
    decreases names.len(),
{
    if names.len() == 0 {
        seq![]
    } else {
        let before = records_of(names.drop_last(), c);
        if c.affected.dom().contains(names.last()) {
            with_ids(before, c.affected[names.last()].ids)
        } else {
            before
        }
    }
}

fn add_ids(out: &mut Vec<String>, ids: &Vec<String>)
    ensures
        final(out).deep_view() == with_ids(old(out).deep_view(), ids.deep_view()),
{
    let ghost known = out.deep_view();
    let ghost all = ids.deep_view();
    let mut i: usize = 0;
    while i < ids.len()
        invariant
            i <= ids@.len(),
            all == ids.deep_view(),
            out.deep_view() == with_ids(known, all.take(i as int)),
        decreases ids@.len() - i,
    {
        proof {
            assert(all.take(i + 1).drop_last() =~= all.take(i as int));
            assert(all.take(i + 1).last() == ids@[i as int]@);
        }
        if !contains(out, ids[i].as_str()) {
            push_name(out, ids[i].as_str());
        }
        i += 1;
    }
    proof {
        assert(all.take(i as int) =~= all);
    }
}

/// The records that some packages' sets name, each once.
pub fn record_ids(names: &Vec<String>, cache: &Cache) -> (r: Vec<String>)
    ensures
        r.deep_view() == records_of(names.deep_view(), cache@),
{
    let ghost all = names.deep_view();
    let mut out: Vec<String> = Vec::new();
    let mut i: usize = 0;
    proof {
        assert(out.deep_view() =~= seq![]);
    }
    while i < names.len()
        invariant
            i <= names@.len(),
            all == names.deep_view(),
            out.deep_view() == records_of(all.take(i as int), cache@),
        decreases names@.len() - i,
    {
        proof {
            assert(all.take(i + 1).drop_last() =~= all.take(i as int));
            assert(all.take(i + 1).last() == names@[i as int]@);
        }
        if let Some(k) = find_affected(&cache.affected, names[i].as_str()) {
            add_ids(&mut out, &cache.affected[k].ids);
        }
        i += 1;
    }
    proof {
        assert(all.take(i as int) =~= all);
    }
    out
}

/// Where a record is fetched from first. One that is filed under a different
/// ecosystem's folder is not there; the API knows it by identifier alone.
pub fn record_url(ecosystem: Ecosystem, id: &str) -> (r: String)
    ensures
        r@ == RECORD_HOST@ + "/"@ + ecosystem_name(ecosystem) + "/"@ + id@ + ".json"@,
{
    RECORD_HOST.to_owned().concat("/").concat(ecosystem.as_str()).concat("/").concat(id).concat(
        ".json",
    )
}

/// Where a record is fetched from where the bucket does not have it.
pub fn fallback_url(id: &str) -> (r: String)
    ensures
        r@ == API_HOST@ + "/v1/vulns/"@ + id@,
{
    API_HOST.to_owned().concat("/v1/vulns/").concat(id)
}

/// Where a record is kept.
pub fn record_path(root: &str, id: &str) -> (r: String)
    ensures
        r@ == crate::path::join_of(
            crate::path::join_of(crate::path::join_of(root@, "api"@), "records"@),
            id@ + ".json"@,
        ),
{
    let dir = crate::path::join(root, "api");
    let dir = crate::path::join(dir.as_str(), "records");
    let file = id.to_owned().concat(".json");
    crate::path::join(dir.as_str(), file.as_str())
}

/// Where what is known of an ecosystem is kept.
pub fn cache_path(root: &str, ecosystem: Ecosystem) -> (r: String)
    ensures
        r@ == crate::path::join_of(
            crate::path::join_of(root@, "api"@),
            ecosystem_name(ecosystem) + ".json"@,
        ),
{
    let dir = crate::path::join(root, "api");
    let file = ecosystem.as_str().to_owned().concat(".json");
    crate::path::join(dir.as_str(), file.as_str())
}

/// How long an answer is trusted, in seconds.
pub fn ttl_seconds(config: &Config) -> (r: u64)
    ensures
        r == (if config.online.ttl_hours * 3600 > u64::MAX {
            u64::MAX as int
        } else {
            config.online.ttl_hours * 3600
        }),
{
    let hours: u64 = config.online.ttl_hours;
    if hours > u64::MAX / 3600 {
        u64::MAX
    } else {
        hours * 3600
    }
}

// ---- nothing is asked twice ----

proof fn lemma_unanswered(packages: Seq<AskedView>, c: CacheView, now: u64, ttl: u64)
    ensures
        forall|i: int|
            0 <= i < unanswered(packages, c, now, ttl).len() ==> !is_answered(
                c,
                #[trigger] unanswered(packages, c, now, ttl)[i],
                now,
                ttl,
            ),
        forall|k: int|
            0 <= k < packages.len() && !is_answered(c, #[trigger] packages[k], now, ttl)
                ==> unanswered(packages, c, now, ttl).contains(packages[k]),
        (forall|k: int| 0 <= k < packages.len() ==> is_answered(c, #[trigger] packages[k], now, ttl))
            ==> unanswered(packages, c, now, ttl).len() == 0,
    decreases packages.len(),
{
    if packages.len() > 0 {
        let front = packages.drop_last();
        lemma_unanswered(front, c, now, ttl);
        let before = unanswered(front, c, now, ttl);
        let out = unanswered(packages, c, now, ttl);
        assert forall|k: int|
            0 <= k < packages.len() && !is_answered(c, #[trigger] packages[k], now, ttl) implies
            out.contains(packages[k]) by {
            if k < front.len() {
                assert(front[k] == packages[k]);
                let i = choose|i: int| 0 <= i < before.len() && before[i] == front[k];
                assert(out[i] == packages[k]);
            } else {
                assert(out[before.len() as int] == packages[k]);
            }
        }
        if forall|k: int| 0 <= k < packages.len() ==> is_answered(c, #[trigger] packages[k], now, ttl) {
            assert forall|k: int| 0 <= k < front.len() implies is_answered(
                c,
                #[trigger] front[k],
                now,
                ttl,
            ) by {
                assert(front[k] == packages[k]);
            }
            assert(is_answered(c, packages[packages.len() - 1], now, ttl));
        }
    }
}

/// What recording the versions that came back clean keeps and adds.
proof fn lemma_sifted(
    asked: Seq<AskedView>,
    hits: Seq<ResultView>,
    c: CacheView,
    now: u64,
    ttl: u64,
    n: nat,
)
    requires
        n <= asked.len(),
        n <= hits.len(),
        ttl > 0,
    ensures
        ({
            let (after, affected) = sifted(asked, hits, c, now, n);
            &&& forall|name: Seq<char>, version: Seq<char>| #[trigger]
                holds_clean(c, name, version, now, ttl) ==> holds_clean(
                    after,
                    name,
                    version,
                    now,
                    ttl,
                )
            &&& forall|name: Seq<char>|
                (forall|i: int| 0 <= i < n ==> (#[trigger] asked[i]).name != name) && holds_affected(
                    c,
                    name,
                    now,
                    ttl,
                ) ==> #[trigger] holds_affected(after, name, now, ttl)
            &&& forall|i: int|
                0 <= i < n ==> holds_clean(
                    after,
                    (#[trigger] asked[i]).name,
                    asked[i].version,
                    now,
                    ttl,
                ) || affected.contains(asked[i].name)
        }),
    decreases n,
{
    if n > 0 {
        let i = (n - 1) as nat;
        lemma_sifted(asked, hits, c, now, ttl, i);
        let (before, had) = sifted(asked, hits, c, now, i);
        let (after, affected) = sifted(asked, hits, c, now, n);
        let last = asked[i as int];
        assert forall|name: Seq<char>, version: Seq<char>| #[trigger]
            holds_clean(before, name, version, now, ttl) implies holds_clean(
            after,
            name,
            version,
            now,
            ttl,
        ) by {}
        assert forall|name: Seq<char>|
            (forall|k: int| 0 <= k < n ==> (#[trigger] asked[k]).name != name) && holds_affected(
                c,
                name,
                now,
                ttl,
            ) implies #[trigger] holds_affected(after, name, now, ttl) by {
            assert(asked[i as int].name != name);
            assert(holds_affected(before, name, now, ttl));
        }
        assert forall|k: int| 0 <= k < n implies holds_clean(
            after,
            (#[trigger] asked[k]).name,
            asked[k].version,
            now,
            ttl,
        ) || affected.contains(asked[k].name) by {
            if k < i {
                if had.contains(asked[k].name) {
                    let j = choose|j: int| 0 <= j < had.len() && had[j] == asked[k].name;
                    assert(affected[j] == asked[k].name);
                }
            } else if !is_clean_result(hits[k]) {
                assert(affected[had.len() as int] == asked[k].name);
            }
        }
    }
}

proof fn lemma_recorded_held(
    names: Seq<Seq<char>>,
    sets: Seq<ResultView>,
    c: CacheView,
    now: u64,
    ttl: u64,
    n: nat,
)
    requires
        n <= names.len(),
        n <= sets.len(),
        ttl > 0,
    ensures
        ({
            let after = recorded(names, sets, c, now, n).0;
            &&& after.clean == c.clean
            &&& forall|name: Seq<char>|
                holds_affected(c, name, now, ttl) ==> #[trigger] holds_affected(
                    after,
                    name,
                    now,
                    ttl,
                )
            &&& forall|i: int| 0 <= i < n ==> holds_affected(after, #[trigger] names[i], now, ttl)
        }),
    decreases n,
{
    if n > 0 {
        let i = (n - 1) as nat;
        lemma_recorded_held(names, sets, c, now, ttl, i);
        let before = recorded(names, sets, c, now, i).0;
        let after = recorded(names, sets, c, now, n).0;
        assert forall|name: Seq<char>| holds_affected(c, name, now, ttl) implies #[trigger]
            holds_affected(after, name, now, ttl) by {
            assert(holds_affected(before, name, now, ttl));
        }
        assert forall|k: int| 0 <= k < n implies holds_affected(
            after,
            #[trigger] names[k],
            now,
            ttl,
        ) by {
            if k < i {
                assert(holds_affected(before, names[k], now, ttl));
            }
        }
    }
}

/// Once a scan's questions have been answered and the answers recorded, every
/// package is answered: the next scan asks nothing, as long as the answers are
/// trusted.
pub proof fn an_answered_scan_asks_nothing(
    packages: Seq<AskedView>,
    c: CacheView,
    now: u64,
    ttl: u64,
    hits: Seq<ResultView>,
    sets: Seq<ResultView>,
)
    requires
        ttl > 0,
        hits.len() == unanswered(packages, c, now, ttl).len(),
        sets.len() == sifted(
            unanswered(packages, c, now, ttl),
            hits,
            c,
            now,
            hits.len(),
        ).1.len(),
    ensures
        ({
            let asked = unanswered(packages, c, now, ttl);
            let (sifted_cache, affected) = sifted(asked, hits, c, now, asked.len());
            let after = recorded(affected, sets, sifted_cache, now, affected.len()).0;
            unanswered(packages, after, now, ttl).len() == 0
        }),
{
    let asked = unanswered(packages, c, now, ttl);
    let (middle, affected) = sifted(asked, hits, c, now, asked.len());
    let after = recorded(affected, sets, middle, now, affected.len()).0;
    lemma_unanswered(packages, c, now, ttl);
    lemma_sifted(asked, hits, c, now, ttl, asked.len());
    lemma_recorded_held(affected, sets, middle, now, ttl, affected.len());
    assert forall|k: int| 0 <= k < packages.len() implies is_answered(
        after,
        #[trigger] packages[k],
        now,
        ttl,
    ) by {
        let p = packages[k];
        if is_answered(c, p, now, ttl) {
            if holds_clean(c, p.name, p.version, now, ttl) {
                assert(holds_clean(middle, p.name, p.version, now, ttl));
            } else {
                assert forall|i: int| 0 <= i < asked.len() implies (
                #[trigger] asked[i]).name != p.name by {
                    assert(!is_answered(c, asked[i], now, ttl));
                }
                assert(holds_affected(middle, p.name, now, ttl));
                assert(holds_affected(after, p.name, now, ttl));
            }
        } else {
            assert(asked.contains(p));
            let i = choose|i: int| 0 <= i < asked.len() && asked[i] == p;
            if affected.contains(asked[i].name) {
                let j = choose|j: int| 0 <= j < affected.len() && affected[j] == asked[i].name;
                assert(holds_affected(after, affected[j], now, ttl));
            } else {
                assert(holds_clean(middle, asked[i].name, asked[i].version, now, ttl));
            }
        }
    }
    lemma_unanswered(packages, after, now, ttl);
}

// ---- complete sets ----

proof fn lemma_with_ids(known: Seq<Seq<char>>, ids: Seq<Seq<char>>)
    ensures
        forall|i: int| 0 <= i < known.len() ==> with_ids(known, ids).contains(#[trigger] known[i]),
        forall|i: int| 0 <= i < ids.len() ==> with_ids(known, ids).contains(#[trigger] ids[i]),
    decreases ids.len(),
{
    let out = with_ids(known, ids);
    if ids.len() == 0 {
        assert forall|i: int| 0 <= i < known.len() implies out.contains(#[trigger] known[i]) by {
            assert(out[i] == known[i]);
        }
    } else {
        let front = ids.drop_last();
        lemma_with_ids(known, front);
        let before = with_ids(known, front);
        assert forall|x: Seq<char>| before.contains(x) implies #[trigger] out.contains(x) by {
            let j = choose|j: int| 0 <= j < before.len() && before[j] == x;
            assert(out[j] == x);
        }
        assert(out.contains(ids.last())) by {
            if !before.contains(ids.last()) {
                assert(out[before.len() as int] == ids.last());
            }
        }
        assert forall|i: int| 0 <= i < ids.len() implies out.contains(#[trigger] ids[i]) by {
            if i < front.len() {
                assert(front[i] == ids[i]);
                assert(before.contains(front[i]));
            }
        }
    }
}

/// Every record that a package's set names is fetched, so that the index holds
/// the whole set: where the set is complete, a candidate upgrade is checked
/// against all of the package's advisories.
pub proof fn a_set_is_fetched_whole(names: Seq<Seq<char>>, c: CacheView, k: int, j: int)
    requires
        0 <= k < names.len(),
        c.affected.dom().contains(names[k]),
        0 <= j < c.affected[names[k]].ids.len(),
    ensures
        records_of(names, c).contains(c.affected[names[k]].ids[j]),
    decreases names.len(),
{
    let front = names.drop_last();
    let before = records_of(front, c);
    if k < front.len() {
        a_set_is_fetched_whole(front, c, k, j);
        if c.affected.dom().contains(names.last()) {
            lemma_with_ids(before, c.affected[names.last()].ids);
            let i = choose|i: int| 0 <= i < before.len() && before[i] == c.affected[front[k]].ids[j];
            assert(records_of(names, c).contains(before[i]));
        }
    } else {
        lemma_with_ids(before, c.affected[names.last()].ids);
    }
}

} // verus!
