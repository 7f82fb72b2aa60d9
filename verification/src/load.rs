//! Turning advisory archives into an in-memory index.
use crate::archive::{sorted_out, zip_entries, Found, FoundView, RawView};
use crate::index::Index;
use crate::model::{Advisory, AdvisoryView, Ecosystem};
use crate::osv::{model_of, OsvAdvisory, OsvAdvisoryView};
use crate::text::{chars, decimal, equal, number, part};
use vstd::prelude::*;

verus! {

/// How an archive's entries are decoded.
#[derive(Clone, Copy, PartialEq, Eq, Debug, Default, Structural)]
pub enum Strategy {
    /// One entry at a time.
    Sequential,
    /// Decoded across every core.
    #[default]
    Parallel,
}

/// Why an archive gave no index.
#[derive(Clone, PartialEq, Eq, Debug)]
pub enum LoadError {
    NotReady(String),
    Open { path: String, message: String },
    Zip { path: String, message: String },
}

/// What a [`LoadError`] says.
pub enum LoadErrorView {
    NotReady(Seq<char>),
    Open { path: Seq<char>, message: Seq<char> },
    Zip { path: Seq<char>, message: Seq<char> },
}

impl DeepView for LoadError {
    type V = LoadErrorView;

    open spec fn deep_view(&self) -> LoadErrorView {
        match self {
            LoadError::NotReady(s) => LoadErrorView::NotReady(s@),
            LoadError::Open { path, message } => LoadErrorView::Open {
                path: path@,
                message: message@,
            },
            LoadError::Zip { path, message } => LoadErrorView::Zip {
                path: path@,
                message: message@,
            },
        }
    }
}

pub open spec fn error_text(e: LoadErrorView) -> Seq<char> {
    match e {
        LoadErrorView::NotReady(s) => "advisory database not ready: "@ + s,
        LoadErrorView::Open { path, message } => "open "@ + path + ": "@ + message,
        LoadErrorView::Zip { path, message } => "read "@ + path + ": "@ + message,
    }
}

impl LoadError {
    /// The error as a sentence.
    pub fn describe(&self) -> (r: String)
        ensures
            r@ == error_text(self.deep_view()),
    {
        match self {
            LoadError::NotReady(s) => "advisory database not ready: ".to_owned().concat(
                s.as_str(),
            ),
            LoadError::Open { path, message } => "open ".to_owned().concat(path.as_str()).concat(
                ": ",
            ).concat(message.as_str()),
            LoadError::Zip { path, message } => "read ".to_owned().concat(path.as_str()).concat(
                ": ",
            ).concat(message.as_str()),
        }
    }
}

/// What one archive contributed, for logging and for the benchmarks.
#[derive(Clone, Copy, PartialEq, Eq, Debug, Structural)]
pub struct ArchiveStats {
    pub entries: usize,
    pub indexed: usize,
    pub skipped: usize,
}

/// What came of one entry of an archive.
#[derive(Clone, Debug)]
pub enum Decoded {
    /// Not an advisory at all.
    Other,
    Indexed(Advisory),
    /// Withdrawn, or covering only other ecosystems. Not an error.
    Filtered,
    /// It could not be read, or is no advisory.
    Failed,
}

/// What a [`Decoded`] says.
pub enum DecodedView {
    Other,
    Indexed(AdvisoryView),
    Filtered,
    Failed,
}

impl DeepView for Decoded {
    type V = DecodedView;

    open spec fn deep_view(&self) -> DecodedView {
        match self {
            Decoded::Other => DecodedView::Other,
            Decoded::Indexed(a) => DecodedView::Indexed(a.deep_view()),
            Decoded::Filtered => DecodedView::Filtered,
            Decoded::Failed => DecodedView::Failed,
        }
    }
}

/// Whether an entry of an archive is an advisory, by its name.
pub open spec fn is_advisory_name_of(name: Seq<char>) -> bool {
    name.len() >= 5 && name.skip(name.len() - 5) == ".json"@
}

pub fn is_advisory_name(name: &str) -> (r: bool)
    ensures
        r == is_advisory_name_of(name@),
{
    let all = chars(name);
    let tail = chars(".json");
    if all.len() < 5 {
        return false;
    }
    proof {
        assert(all@.subrange(all@.len() - 5, all@.len() as int) =~= all@.skip(all@.len() - 5));
    }
    equal(part(all.as_slice(), all.len() - 5, all.len()), tail.as_slice())
}

/// What comes of an advisory that was parsed, or could not be.
pub open spec fn decoded_of(parsed: Option<OsvAdvisoryView>, ecosystem: Ecosystem) -> DecodedView {
    match parsed {
        None => DecodedView::Failed,
        Some(raw) => match model_of(raw, ecosystem) {
            Some(a) => DecodedView::Indexed(a),
            None => DecodedView::Filtered,
        },
    }
}

/// What came of an entry: `parsed` is the advisory it holds, or nothing where
/// it could not be read or parsed.
pub fn decode(parsed: Option<OsvAdvisory>, ecosystem: Ecosystem) -> (r: Decoded)
    ensures
        r.deep_view() == decoded_of(parsed.deep_view(), ecosystem),
{
    match parsed {
        None => Decoded::Failed,
        Some(raw) => match raw.into_model(ecosystem) {
            Some(advisory) => Decoded::Indexed(advisory),
            None => Decoded::Filtered,
        },
    }
}

/// What comes of an entry of an archive: `parsed` is the advisory that its bytes
/// are, where they are one.
pub open spec fn concluded(
    found: FoundView,
    parsed: Option<OsvAdvisoryView>,
    ecosystem: Ecosystem,
) -> DecodedView {
    match found {
        FoundView::Other => DecodedView::Other,
        FoundView::Unreadable => DecodedView::Failed,
        FoundView::Bytes(_) => decoded_of(parsed, ecosystem),
    }
}

/// What comes of an entry of an archive: `parsed` is the advisory that its bytes
/// are, where they are one.
pub fn conclude(found: &Found, parsed: Option<OsvAdvisory>, ecosystem: Ecosystem) -> (r: Decoded)
    ensures
        r.deep_view() == concluded(found.deep_view(), parsed.deep_view(), ecosystem),
{
    match found {
        Found::Other => Decoded::Other,
        Found::Unreadable => Decoded::Failed,
        Found::Bytes(_) => decode(parsed, ecosystem),
    }
}

/// The advisories among what came of some entries, in order.
pub open spec fn advisories_in(entries: Seq<DecodedView>) -> Seq<AdvisoryView>
    decreases entries.len(),
{
    if entries.len() == 0 {
        seq![]
    } else {
        match entries.last() {
            DecodedView::Indexed(a) => advisories_in(entries.drop_last()).push(a),
            _ => advisories_in(entries.drop_last()),
        }
    }
}

/// How many entries are advisories at all.
pub open spec fn count_entries(entries: Seq<DecodedView>) -> nat
    decreases entries.len(),
{
    if entries.len() == 0 {
        0
    } else {
        count_entries(entries.drop_last()) + (if entries.last() is Other {
            0nat
        } else {
            1nat
        })
    }
}

/// How many entries failed.
pub open spec fn count_failed(entries: Seq<DecodedView>) -> nat
    decreases entries.len(),
{
    if entries.len() == 0 {
        0
    } else {
        count_failed(entries.drop_last()) + (if entries.last() is Failed {
            1nat
        } else {
            0nat
        })
    }
}

/// What an archive contributes, from what came of its entries.
pub fn tally(entries: Vec<Decoded>) -> (r: (Vec<Advisory>, ArchiveStats))
    ensures
        r.0.deep_view() == advisories_in(entries.deep_view()),
        r.1.entries == count_entries(entries.deep_view()),
        r.1.indexed == advisories_in(entries.deep_view()).len(),
        r.1.skipped == count_failed(entries.deep_view()),
{
    let ghost all = entries.deep_view();
    let mut out: Vec<Advisory> = Vec::new();
    let mut seen: usize = 0;
    let mut skipped: usize = 0;
    let mut i: usize = 0;
    proof {
        assert(out.deep_view() =~= seq![]);
    }
    while i < entries.len()
        invariant
            i <= entries@.len(),
            all == entries.deep_view(),
            out.deep_view() == advisories_in(all.take(i as int)),
            seen == count_entries(all.take(i as int)),
            skipped == count_failed(all.take(i as int)),
            seen <= i,
            skipped <= i,
        decreases entries@.len() - i,
    {
        let ghost before = out.deep_view();
        proof {
            assert(all.take(i + 1).drop_last() =~= all.take(i as int));
            assert(all.take(i + 1).last() == entries@[i as int].deep_view());
        }
        match &entries[i] {
            Decoded::Other => {},
            Decoded::Indexed(advisory) => {
                seen += 1;
                let copy = advisory.copy();
                out.push(copy);
                proof {
                    assert(out.deep_view() =~= before.push(copy.deep_view()));
                }
            },
            Decoded::Filtered => {
                seen += 1;
            },
            Decoded::Failed => {
                seen += 1;
                skipped += 1;
            },
        }
        i += 1;
    }
    proof {
        assert(all.take(i as int) =~= all);
    }
    let indexed: usize = out.len();
    (out, ArchiveStats { entries: seen, indexed, skipped })
}

proof fn lemma_counts(entries: Seq<DecodedView>)
    ensures
        advisories_in(entries).len() + count_failed(entries) <= count_entries(entries),
    decreases entries.len(),
{
    if entries.len() > 0 {
        lemma_counts(entries.drop_last());
    }
}

/// What is indexed and what is skipped never exceed what is there; and where
/// everything is skipped, nothing is indexed.
pub proof fn the_counts_add_up(entries: Seq<DecodedView>)
    ensures
        advisories_in(entries).len() + count_failed(entries) <= count_entries(entries),
        count_failed(entries) == count_entries(entries) ==> advisories_in(entries).len() == 0,
{
    lemma_counts(entries);
}

/// What comes of the entries of an archive, in order, given how bytes are
/// parsed.
pub open spec fn contributed(
    raws: Seq<Option<RawView>>,
    parse: spec_fn(Seq<u8>) -> Option<OsvAdvisoryView>,
    ecosystem: Ecosystem,
) -> Seq<DecodedView> {
    Seq::new(
        raws.len(),
        |i: int|
            concluded(
                sorted_out(raws[i]),
                match sorted_out(raws[i]) {
                    FoundView::Bytes(bytes) => parse(bytes),
                    _ => None,
                },
                ecosystem,
            ),
    )
}

proof fn lemma_pieces(a: Seq<DecodedView>, b: Seq<DecodedView>)
    ensures
        advisories_in(a + b) == advisories_in(a) + advisories_in(b),
        count_entries(a + b) == count_entries(a) + count_entries(b),
        count_failed(a + b) == count_failed(a) + count_failed(b),
    decreases b.len(),
{
    if b.len() == 0 {
        assert(a + b =~= a);
        assert(advisories_in(a) + advisories_in(b) =~= advisories_in(a));
    } else {
        lemma_pieces(a, b.drop_last());
        assert((a + b).drop_last() =~= a + b.drop_last());
        assert((a + b).last() == b.last());
        assert(advisories_in(a + b) =~= advisories_in(a) + advisories_in(b));
    }
}

/// Sequential and parallel loading agree: an archive that is read in pieces,
/// each by whichever worker, and put together in order contributes what it does
/// when it is read in turn. The advisories, their order and the counts are the
/// same, and so is whether it counts as corrupt.
pub proof fn sequential_and_parallel_loading_agree(
    raws: Seq<Option<RawView>>,
    parse: spec_fn(Seq<u8>) -> Option<OsvAdvisoryView>,
    ecosystem: Ecosystem,
    at: int,
)
    requires
        0 <= at <= raws.len(),
    ensures
        ({
            let whole = contributed(raws, parse, ecosystem);
            let front = contributed(raws.subrange(0, at), parse, ecosystem);
            let back = contributed(raws.subrange(at, raws.len() as int), parse, ecosystem);
            &&& front + back == whole
            &&& advisories_in(front) + advisories_in(back) == advisories_in(whole)
            &&& count_entries(front) + count_entries(back) == count_entries(whole)
            &&& count_failed(front) + count_failed(back) == count_failed(whole)
            &&& is_corrupt(front + back) == is_corrupt(whole)
        }),
{
    let whole = contributed(raws, parse, ecosystem);
    let front = contributed(raws.subrange(0, at), parse, ecosystem);
    let back = contributed(raws.subrange(at, raws.len() as int), parse, ecosystem);
    assert(front + back =~= whole);
    lemma_pieces(front, back);
}

/// Whether nothing in an archive could be decoded. An archive that decodes but
/// indexes nothing is a legitimate answer; one where nothing decodes is a
/// truncated download.
pub open spec fn is_corrupt(entries: Seq<DecodedView>) -> bool {
    count_entries(entries) > 0 && count_failed(entries) == count_entries(entries)
}

pub open spec fn corrupt_text(entries: nat, path: Seq<char>) -> Seq<char> {
    "all "@ + decimal(entries) + " advisories in "@ + path + " failed to decode"@
}

/// Archives being read into one index.
pub struct Loading {
    pub advisories: Vec<Advisory>,
    pub ecosystems: Vec<Ecosystem>,
    pub stats: Vec<(Ecosystem, ArchiveStats)>,
}

impl Loading {
    pub fn new() -> (r: Loading)
        ensures
            r.advisories.deep_view() == Seq::<AdvisoryView>::empty(),
            r.ecosystems@ == Seq::<Ecosystem>::empty(),
            r.stats@ == Seq::<(Ecosystem, ArchiveStats)>::empty(),
    {
        let r = Loading { advisories: Vec::new(), ecosystems: Vec::new(), stats: Vec::new() };
        proof {
            assert(r.advisories.deep_view() =~= Seq::<AdvisoryView>::empty());
        }
        r
    }

    /// Adds what came of the entries of one archive. Fails where nothing in it
    /// could be decoded, and adds nothing then.
    pub fn archive(&mut self, ecosystem: Ecosystem, path: &str, entries: Vec<Decoded>) -> (r: Result<
        (),
        LoadError,
    >)
        ensures
            ({
                let all = entries.deep_view();
                let corrupt = is_corrupt(all);
                match r {
                    Ok(_) => {
                        &&& !corrupt
                        &&& final(self).advisories.deep_view() == old(
                            self,
                        ).advisories.deep_view() + advisories_in(all)
                        &&& final(self).ecosystems@ == old(self).ecosystems@.push(ecosystem)
                        &&& final(self).stats@.len() == old(self).stats@.len() + 1
                        &&& final(self).stats@.drop_last() == old(self).stats@
                        &&& final(self).stats@.last().0 == ecosystem
                        &&& final(self).stats@.last().1.entries == count_entries(all)
                        &&& final(self).stats@.last().1.indexed == advisories_in(all).len()
                        &&& final(self).stats@.last().1.skipped == count_failed(all)
                    },
                    Err(e) => {
                        &&& corrupt
                        &&& e.deep_view() == LoadErrorView::NotReady(
                            corrupt_text(count_entries(all), path@),
                        )
                        &&& *final(self) == *old(self)
                    },
                }
            }),
    {
        let ghost all = entries.deep_view();
        let (advisories, stats) = tally(entries);
        if stats.entries > 0 && stats.skipped == stats.entries {
            return Err(
                LoadError::NotReady(
                    "all ".to_owned().concat(number(stats.entries as u64).as_str()).concat(
                        " advisories in ",
                    ).concat(path).concat(" failed to decode"),
                ),
            );
        }
        let ghost before = self.advisories@;
        let ghost before_view = self.advisories.deep_view();
        let ghost added = advisories@;
        let ghost added_view = advisories.deep_view();
        let mut advisories = advisories;
        self.advisories.append(&mut advisories);
        proof {
            assert(self.advisories.deep_view() =~= before_view + added_view) by {
                assert forall|k: int| 0 <= k < self.advisories@.len() implies
                    self.advisories.deep_view()[k] == (before_view + added_view)[k] by {
                    if k < before.len() {
                        assert(self.advisories@[k] == before[k]);
                        assert(before_view[k] == before[k].deep_view());
                    } else {
                        assert(self.advisories@[k] == added[k - before.len()]);
                        assert(added_view[k - before.len()] == added[k
                            - before.len()].deep_view());
                    }
                }
            }
        }
        self.ecosystems.push(ecosystem);
        let ghost had = self.stats@;
        self.stats.push((ecosystem, stats));
        proof {
            assert(self.stats@.drop_last() =~= had);
        }
        Ok(())
    }

    /// The index of everything that was read.
    pub fn finish(self, load_time: u64, built_at: Option<u64>) -> (r: (
        Index,
        Vec<(Ecosystem, ArchiveStats)>,
    ))
        ensures
            r.0.wf(),
            r.0.all() == self.advisories.deep_view(),
            r.0.covered() == self.ecosystems@,
            r.0.spent() == load_time,
            r.0.when() == built_at,
            r.1@ == self.stats@,
    {
        (Index::build(self.advisories, self.ecosystems, load_time, built_at), self.stats)
    }
}

// ---- several archives ----

/// What came of reading an archive: what came of its entries, in order, or why
/// it could not be opened.
pub struct Contribution {
    pub ecosystem: Ecosystem,
    pub path: String,
    pub entries: Result<Vec<Decoded>, LoadError>,
}

/// What a [`Contribution`] says.
pub struct ContributionView {
    pub ecosystem: Ecosystem,
    pub path: Seq<char>,
    pub entries: Result<Seq<DecodedView>, LoadErrorView>,
}

impl DeepView for Contribution {
    type V = ContributionView;

    open spec fn deep_view(&self) -> ContributionView {
        ContributionView {
            ecosystem: self.ecosystem,
            path: self.path@,
            entries: match self.entries {
                Ok(entries) => Ok(entries.deep_view()),
                Err(e) => Err(e.deep_view()),
            },
        }
    }
}

/// Why an archive gives no index, if it gives none: it could not be opened, or
/// nothing in it could be decoded.
pub open spec fn failure_of(c: ContributionView) -> Option<LoadErrorView> {
    match c.entries {
        Err(e) => Some(e),
        Ok(entries) => if is_corrupt(entries) {
            Some(LoadErrorView::NotReady(corrupt_text(count_entries(entries), c.path)))
        } else {
            None
        },
    }
}

/// Why several archives give no index: the failure of the first that fails.
pub open spec fn first_failure(all: Seq<ContributionView>) -> Option<LoadErrorView>
    decreases all.len(),
{
    if all.len() == 0 {
        None
    } else {
        match first_failure(all.drop_last()) {
            Some(e) => Some(e),
            None => failure_of(all.last()),
        }
    }
}

/// The advisories of several archives, in order.
pub open spec fn advisories_of(all: Seq<ContributionView>) -> Seq<AdvisoryView>
    decreases all.len(),
{
    if all.len() == 0 {
        seq![]
    } else {
        advisories_of(all.drop_last()) + (match all.last().entries {
            Ok(entries) => advisories_in(entries),
            Err(_) => seq![],
        })
    }
}

pub open spec fn ecosystems_in(all: Seq<ContributionView>) -> Seq<Ecosystem> {
    Seq::new(all.len(), |i: int| all[i].ecosystem)
}

/// Whether this is what an archive contributed.
pub open spec fn is_stats_of(s: (Ecosystem, ArchiveStats), c: ContributionView) -> bool {
    c.entries matches Ok(entries) && s.0 == c.ecosystem && s.1.entries == count_entries(entries)
        && s.1.indexed == advisories_in(entries).len() && s.1.skipped == count_failed(entries)
}

proof fn lemma_first_failure(all: Seq<ContributionView>, n: int)
    requires
        0 <= n <= all.len(),
        first_failure(all.take(n)) is Some,
    ensures
        first_failure(all) == first_failure(all.take(n)),
    decreases all.len(),
{
    if n < all.len() {
        assert(all.drop_last().take(n) =~= all.take(n));
        lemma_first_failure(all.drop_last(), n);
    } else {
        assert(all.take(n) =~= all);
    }
}

/// One index of several archives, given what came of reading each: an error
/// where one could not be opened or nothing in it could be decoded, that of the
/// first; else all their advisories, in order.
pub fn load(archives: Vec<Contribution>, load_time: u64, built_at: Option<u64>) -> (r: Result<
    (Index, Vec<(Ecosystem, ArchiveStats)>),
    LoadError,
>)
    ensures
        match r {
            Ok((index, stats)) => {
                &&& first_failure(archives.deep_view()) is None
                &&& index.wf()
                &&& index.all() == advisories_of(archives.deep_view())
                &&& index.covered() == ecosystems_in(archives.deep_view())
                &&& index.spent() == load_time
                &&& index.when() == built_at
                &&& stats@.len() == archives@.len()
                &&& forall|i: int|
                    0 <= i < stats@.len() ==> is_stats_of(
                        #[trigger] stats@[i],
                        archives.deep_view()[i],
                    )
            },
            Err(e) => first_failure(archives.deep_view()) == Some(e.deep_view()),
        },
{
    let ghost all = archives.deep_view();
    let ghost given = archives@;
    let mut left = archives;
    let mut loading = Loading::new();
    let ghost mut done: int = 0;
    proof {
        assert(ecosystems_in(all.take(0)) =~= seq![]);
        assert(given.skip(0) =~= given);
    }
    while left.len() > 0
        invariant
            0 <= done <= given.len(),
            left@ == given.skip(done),
            all == archives.deep_view(),
            all.len() == given.len(),
            forall|i: int| 0 <= i < all.len() ==> #[trigger] all[i] == given[i].deep_view(),
            first_failure(all.take(done)) is None,
            loading.advisories.deep_view() == advisories_of(all.take(done)),
            loading.ecosystems@ == ecosystems_in(all.take(done)),
            loading.stats@.len() == done,
            forall|i: int|
                0 <= i < done ==> is_stats_of(#[trigger] loading.stats@[i], all[i]),
        decreases left@.len(),
    {
        let ghost stats = loading.stats@;
        proof {
            assert(all.take(done + 1).drop_last() =~= all.take(done));
            assert(all.take(done + 1).last() == given[done].deep_view());
            assert(left@.remove(0) =~= given.skip(done + 1));
            assert(left@[0] == given[done]);
        }
        let next = left.remove(0);
        let entries = match next.entries {
            Ok(entries) => entries,
            Err(e) => {
                proof {
                    lemma_first_failure(all, done + 1);
                }
                return Err(e);
            },
        };
        match loading.archive(next.ecosystem, next.path.as_str(), entries) {
            Ok(_) => {},
            Err(e) => {
                proof {
                    lemma_first_failure(all, done + 1);
                }
                return Err(e);
            },
        }
        proof {
            assert(ecosystems_in(all.take(done + 1)) =~= ecosystems_in(all.take(done)).push(
                next.ecosystem,
            ));
            assert forall|i: int| 0 <= i < done + 1 implies is_stats_of(
                #[trigger] loading.stats@[i],
                all[i],
            ) by {
                if i < done {
                    assert(loading.stats@[i] == loading.stats@.drop_last()[i]);
                    assert(loading.stats@[i] == stats[i]);
                }
            }
            done = done + 1;
        }
    }
    proof {
        assert(all.take(done) =~= all);
    }
    Ok(loading.finish(load_time, built_at))
}

/// An archive on disk: its bytes, where it can be read.
pub struct FileOnDisk {
    pub ecosystem: Ecosystem,
    pub path: Seq<char>,
    pub bytes: Option<Seq<u8>>,
}

/// Whether this is what comes of reading an archive on disk, given how bytes are
/// parsed. The message of an error may be any.
pub open spec fn comes_of(
    c: ContributionView,
    file: FileOnDisk,
    parse: spec_fn(Seq<u8>) -> Option<OsvAdvisoryView>,
) -> bool {
    &&& c.ecosystem == file.ecosystem
    &&& c.path == file.path
    &&& match file.bytes {
        None => c.entries matches Err(LoadErrorView::Open { path, .. }) && path == file.path,
        Some(bytes) => match zip_entries(bytes) {
            None => c.entries matches Err(LoadErrorView::Zip { path, .. }) && path == file.path,
            Some(raws) => c.entries == Ok::<Seq<DecodedView>, LoadErrorView>(
                contributed(raws, parse, file.ecosystem),
            ),
        },
    }
}

pub open spec fn all_come_of(
    all: Seq<ContributionView>,
    files: Seq<FileOnDisk>,
    parse: spec_fn(Seq<u8>) -> Option<OsvAdvisoryView>,
) -> bool {
    &&& all.len() == files.len()
    &&& forall|i: int| 0 <= i < all.len() ==> comes_of(#[trigger] all[i], files[i], parse)
}

/// Whether two errors are the same but for the message.
pub open spec fn same_failure(a: LoadErrorView, b: LoadErrorView) -> bool {
    match (a, b) {
        (LoadErrorView::NotReady(s), LoadErrorView::NotReady(t)) => s == t,
        (LoadErrorView::Open { path: s, .. }, LoadErrorView::Open { path: t, .. }) => s == t,
        (LoadErrorView::Zip { path: s, .. }, LoadErrorView::Zip { path: t, .. }) => s == t,
        _ => false,
    }
}

/// What is loaded depends on the files alone: two ways to read them, in turn or
/// across every core, both fail or both succeed; they fail for the same reason,
/// and else index the same advisories in the same order.
pub proof fn loading_depends_on_the_files_alone(
    a: Seq<ContributionView>,
    b: Seq<ContributionView>,
    files: Seq<FileOnDisk>,
    parse: spec_fn(Seq<u8>) -> Option<OsvAdvisoryView>,
)
    requires
        all_come_of(a, files, parse),
        all_come_of(b, files, parse),
    ensures
        match (first_failure(a), first_failure(b)) {
            (Some(x), Some(y)) => same_failure(x, y),
            (None, None) => a == b,
            _ => false,
        },
        advisories_of(a) == advisories_of(b),
        ecosystems_in(a) == ecosystems_in(b),
    decreases files.len(),
{
    if files.len() > 0 {
        let n = files.len() - 1;
        let (x, y) = (a.drop_last(), b.drop_last());
        assert(all_come_of(x, files.drop_last(), parse)) by {
            assert forall|i: int| 0 <= i < x.len() implies comes_of(
                #[trigger] x[i],
                files.drop_last()[i],
                parse,
            ) by {
                assert(x[i] == a[i]);
            }
        }
        assert(all_come_of(y, files.drop_last(), parse)) by {
            assert forall|i: int| 0 <= i < y.len() implies comes_of(
                #[trigger] y[i],
                files.drop_last()[i],
                parse,
            ) by {
                assert(y[i] == b[i]);
            }
        }
        loading_depends_on_the_files_alone(x, y, files.drop_last(), parse);
        assert(comes_of(a[n], files[n], parse) && comes_of(b[n], files[n], parse));
        assert(x.push(a[n]) =~= a && y.push(b[n]) =~= b);
        assert(ecosystems_in(a) =~= ecosystems_in(x).push(a[n].ecosystem));
        assert(ecosystems_in(b) =~= ecosystems_in(y).push(b[n].ecosystem));
    } else {
        assert(a =~= b);
    }
}

/// The first archive that fails decides, whatever stands before or behind it:
/// one that is missing is an open error, one that is no zip a read error, and
/// one whose advisories all fail to decode is not ready, never an empty index.
/// One whose advisories are all withdrawn is no failure.
pub proof fn the_first_archive_that_fails_decides(
    all: Seq<ContributionView>,
    files: Seq<FileOnDisk>,
    parse: spec_fn(Seq<u8>) -> Option<OsvAdvisoryView>,
    k: int,
)
    requires
        all_come_of(all, files, parse),
        0 <= k < all.len(),
        forall|i: int| 0 <= i < k ==> failure_of(#[trigger] all[i]) is None,
    ensures
        failure_of(all[k]) is Some ==> first_failure(all) == failure_of(all[k]),
        match files[k].bytes {
            None => failure_of(all[k]) matches Some(LoadErrorView::Open { path, .. }) && path
                == files[k].path,
            Some(bytes) => match zip_entries(bytes) {
                None => failure_of(all[k]) matches Some(LoadErrorView::Zip { path, .. }) && path
                    == files[k].path,
                Some(raws) => {
                    let entries = contributed(raws, parse, files[k].ecosystem);
                    failure_of(all[k]) == (if count_entries(entries) > 0 && count_failed(entries)
                        == count_entries(entries) {
                        Some(
                            LoadErrorView::NotReady(
                                corrupt_text(count_entries(entries), files[k].path),
                            ),
                        )
                    } else {
                        None
                    })
                },
            },
        },
{
    assert(comes_of(all[k], files[k], parse));
    lemma_no_failure(all, k);
    assert(all.take(k + 1).drop_last() =~= all.take(k));
    if failure_of(all[k]) is Some {
        lemma_first_failure(all, k + 1);
    }
}

proof fn lemma_no_failure(all: Seq<ContributionView>, n: int)
    requires
        0 <= n <= all.len(),
        forall|i: int| 0 <= i < n ==> failure_of(#[trigger] all[i]) is None,
    ensures
        first_failure(all.take(n)) is None,
    decreases n,
{
    if n > 0 {
        lemma_no_failure(all, n - 1);
        assert(all.take(n).drop_last() =~= all.take(n - 1));
        assert(all.take(n).last() == all[n - 1]);
    }
}

/// Where no archive fails, there is an index over all of them.
pub proof fn archives_that_do_not_fail_are_all_indexed(all: Seq<ContributionView>)
    requires
        forall|i: int| 0 <= i < all.len() ==> failure_of(#[trigger] all[i]) is None,
    ensures
        first_failure(all) is None,
{
    lemma_no_failure(all, all.len() as int);
    assert(all.take(all.len() as int) =~= all);
}

} // verus!
