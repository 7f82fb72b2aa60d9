//! The on-disk copy of the advisory database: where it lives, when it is
//! refreshed, and what is accepted as an archive.
use crate::archive::{advisory_named, open_zip, reads_back, zip_entries, zip_len, Opened};
use crate::model::{ecosystem_name, Ecosystem};
use crate::path::{join, join_of};
use crate::text::{
    before, chars, decimal, hex, hex_of, join_texts, joined_with, number, part, split, split_of,
    starts_with, trim, trim_of, up_to, Class,
};
use vstd::arithmetic::div_mod::lemma_fundamental_div_mod;
use vstd::arithmetic::div_mod::lemma_fundamental_div_mod_converse;
use vstd::prelude::*;

verus! {

/// Serves the advisory database, one zip per ecosystem.
pub const ARCHIVE_HOST: &'static str = "https://osv-vulnerabilities.storage.googleapis.com";

pub const ARCHIVE_NAME: &'static str = "all.zip";

/// Matches the layout osv-scanner uses, so that the same cache can be pointed
/// at it.
pub const VENDOR_DIR: &'static str = "osv-scalibr";

/// How long a downloaded archive is trusted before it is checked again, in
/// seconds.
pub const DEFAULT_TTL: u64 = 86400;

/// Why the advisory cache could not be brought up to date.
#[derive(Clone, PartialEq, Eq, Debug)]
pub enum DbError {
    /// No usable archive, with what is known about why.
    NotReady(String),
    /// A filesystem operation failed.
    Io {
        /// What was being done.
        context: String,
        /// What went wrong.
        message: String,
    },
    /// The bucket answered, but not with an archive.
    Fetch {
        /// What was requested.
        url: String,
        /// What went wrong, as the transport or the status reported it.
        message: String,
    },
}

/// What a [`DbError`] says.
pub enum DbErrorView {
    NotReady(Seq<char>),
    Io { context: Seq<char>, message: Seq<char> },
    Fetch { url: Seq<char>, message: Seq<char> },
}

impl DeepView for DbError {
    type V = DbErrorView;

    open spec fn deep_view(&self) -> DbErrorView {
        match self {
            DbError::NotReady(s) => DbErrorView::NotReady(s@),
            DbError::Io { context, message } => DbErrorView::Io {
                context: context@,
                message: message@,
            },
            DbError::Fetch { url, message } => DbErrorView::Fetch { url: url@, message: message@ },
        }
    }
}

/// An error as a sentence.
pub open spec fn error_text(e: DbErrorView) -> Seq<char> {
    match e {
        DbErrorView::NotReady(s) => "advisory database not ready: "@ + s,
        DbErrorView::Io { context, message } => context + ": "@ + message,
        DbErrorView::Fetch { url, message } => "fetch "@ + url + ": "@ + message,
    }
}

impl DbError {
    /// The error as a sentence.
    pub fn describe(&self) -> (r: String)
        ensures
            r@ == error_text(self.deep_view()),
    {
        match self {
            DbError::NotReady(s) => "advisory database not ready: ".to_owned().concat(s.as_str()),
            DbError::Io { context, message } => context.clone().concat(": ").concat(
                message.as_str(),
            ),
            DbError::Fetch { url, message } => "fetch ".to_owned().concat(url.as_str()).concat(
                ": ",
            ).concat(message.as_str()),
        }
    }
}

/// Reports download progress to whatever is watching.
pub trait Progress: Send + Sync {
    /// `total` is `None` when the server sent no Content-Length.
    fn start(&self, ecosystem: Ecosystem, total: Option<u64>);

    /// Bytes received so far.
    fn advance(&self, ecosystem: Ecosystem, downloaded: u64, total: Option<u64>);

    /// The download finished, with the failure if it failed.
    fn done(&self, ecosystem: Ecosystem, error: Option<&str>);
}

// ---- where it lives ----

/// Which rules a platform has for where caches are kept.
#[derive(Clone, Copy, PartialEq, Eq, Debug, Structural)]
pub enum Platform {
    MacOs,
    Windows,
    /// Every other, which follows the XDG base directories.
    Other,
}

/// The directory that holds the user's caches, where the environment names it.
pub open spec fn caches_dir(
    platform: Platform,
    home: Option<Seq<char>>,
    local_app_data: Option<Seq<char>>,
    xdg_cache_home: Option<Seq<char>>,
) -> Option<Seq<char>> {
    match platform {
        Platform::MacOs => match home {
            Some(home) => Some(join_of(home, "Library/Caches"@)),
            None => None,
        },
        Platform::Windows => local_app_data,
        Platform::Other => match (xdg_cache_home, home) {
            (Some(dir), _) => Some(dir),
            (None, Some(home)) => Some(join_of(home, ".cache"@)),
            (None, None) => None,
        },
    }
}

/// The advisory cache directory for a platform, given what the environment
/// says.
///
/// A cache rather than a config directory: this is derived data a user should
/// be able to reclaim by deleting it.
pub fn default_root(
    platform: Platform,
    home: Option<String>,
    local_app_data: Option<String>,
    xdg_cache_home: Option<String>,
) -> (r: Option<String>)
    ensures
        r.deep_view() == (match caches_dir(
            platform,
            home.deep_view(),
            local_app_data.deep_view(),
            xdg_cache_home.deep_view(),
        ) {
            Some(base) => Some(join_of(join_of(base, "zed-package-checker"@), "db"@)),
            None => None,
        }),
{
    let base = match platform {
        Platform::MacOs => match home {
            Some(home) => Some(join(home.as_str(), "Library/Caches")),
            None => None,
        },
        Platform::Windows => local_app_data,
        Platform::Other => match xdg_cache_home {
            Some(dir) => Some(dir),
            None => match home {
                Some(home) => Some(join(home.as_str(), ".cache")),
                None => None,
            },
        },
    };
    match base {
        Some(base) => {
            let dir = join(base.as_str(), "zed-package-checker");
            Some(join(dir.as_str(), "db"))
        },
        None => None,
    }
}

/// The advisory cache: where its archives are, and how long they are trusted.
#[derive(Clone, Debug)]
pub struct Database {
    pub root: String,
    pub host: String,
    /// In seconds.
    pub ttl: u64,
}

pub open spec fn dir_of_ecosystem(root: Seq<char>, e: Ecosystem) -> Seq<char> {
    join_of(join_of(root, VENDOR_DIR@), ecosystem_name(e))
}

pub open spec fn archive_of(root: Seq<char>, e: Ecosystem) -> Seq<char> {
    join_of(dir_of_ecosystem(root, e), ARCHIVE_NAME@)
}

impl Database {
    /// A cache rooted at `root`, reading the public bucket with a one-day
    /// freshness window.
    pub fn new(root: &str) -> (r: Database)
        ensures
            r.root@ == root@,
            r.host@ == ARCHIVE_HOST@,
            r.ttl == DEFAULT_TTL,
    {
        Database { root: root.to_owned(), host: ARCHIVE_HOST.to_owned(), ttl: DEFAULT_TTL }
    }

    /// Where the archives are fetched from: a mirror, for one.
    pub fn with_archive_host(self, host: &str) -> (r: Database)
        ensures
            r.root@ == self.root@,
            r.host@ == host@,
            r.ttl == self.ttl,
    {
        Database { root: self.root, host: host.to_owned(), ttl: self.ttl }
    }

    /// How long an archive is trusted before it is checked again.
    pub fn with_ttl(self, ttl: u64) -> (r: Database)
        ensures
            r.root@ == self.root@,
            r.host@ == self.host@,
            r.ttl == ttl,
    {
        Database { root: self.root, host: self.host, ttl }
    }

    /// The cache directory.
    pub fn root(&self) -> (r: &str)
        ensures
            r@ == self.root@,
    {
        self.root.as_str()
    }

    /// The directory holding one ecosystem's archive.
    pub fn dir_for(&self, ecosystem: Ecosystem) -> (r: String)
        ensures
            r@ == dir_of_ecosystem(self.root@, ecosystem),
    {
        let dir = join(self.root.as_str(), VENDOR_DIR);
        join(dir.as_str(), ecosystem.as_str())
    }

    fn beside(&self, ecosystem: Ecosystem, name: &str) -> (r: String)
        ensures
            r@ == join_of(dir_of_ecosystem(self.root@, ecosystem), name@),
    {
        let dir = self.dir_for(ecosystem);
        join(dir.as_str(), name)
    }

    /// Where one ecosystem's archive lives.
    pub fn archive_path(&self, ecosystem: Ecosystem) -> (r: String)
        ensures
            r@ == archive_of(self.root@, ecosystem),
    {
        self.beside(ecosystem, ARCHIVE_NAME)
    }

    /// The freshness sidecar.
    ///
    /// Named for this server rather than reusing the `.meta` other tools keep
    /// beside the same archive: separate sidecars, one shared archive.
    pub fn meta_path(&self, ecosystem: Ecosystem) -> (r: String)
        ensures
            r@ == join_of(
                dir_of_ecosystem(self.root@, ecosystem),
                ARCHIVE_NAME@ + ".rsmeta"@,
            ),
    {
        let name = ARCHIVE_NAME.to_owned().concat(".rsmeta");
        self.beside(ecosystem, name.as_str())
    }

    pub fn lock_path(&self, ecosystem: Ecosystem) -> (r: String)
        ensures
            r@ == join_of(dir_of_ecosystem(self.root@, ecosystem), ARCHIVE_NAME@ + ".lock"@),
    {
        let name = ARCHIVE_NAME.to_owned().concat(".lock");
        self.beside(ecosystem, name.as_str())
    }

    /// Where one ecosystem's archive is fetched from. Ecosystem names are used
    /// verbatim, including case and the dot in "crates.io".
    pub fn archive_url(&self, ecosystem: Ecosystem) -> (r: String)
        ensures
            r@ == self.host@ + "/"@ + ecosystem_name(ecosystem) + "/"@ + ARCHIVE_NAME@,
    {
        self.host.clone().concat("/").concat(ecosystem.as_str()).concat("/").concat(ARCHIVE_NAME)
    }

    /// The archives for the named ecosystems, ready to be loaded.
    pub fn archives(&self, ecosystems: &Vec<Ecosystem>) -> (r: Vec<(Ecosystem, String)>)
        ensures
            r@.len() == ecosystems@.len(),
            forall|i: int|
                0 <= i < r@.len() ==> (#[trigger] r@[i]).0 == ecosystems@[i] && r@[i].1@ == join_of(
                    dir_of_ecosystem(self.root@, ecosystems@[i]),
                    ARCHIVE_NAME@,
                ),
    {
        let mut out: Vec<(Ecosystem, String)> = Vec::new();
        let mut i: usize = 0;
        while i < ecosystems.len()
            invariant
                i <= ecosystems@.len(),
                out@.len() == i,
                forall|k: int|
                    0 <= k < i ==> (#[trigger] out@[k]).0 == ecosystems@[k] && out@[k].1@
                        == join_of(
                        dir_of_ecosystem(self.root@, ecosystems@[k]),
                        ARCHIVE_NAME@,
                    ),
            decreases ecosystems@.len() - i,
        {
            out.push((ecosystems[i], self.archive_path(ecosystems[i])));
            i += 1;
        }
        out
    }

    /// Whether an archive has to be checked again, given whether it is there,
    /// what is known about it, and the time.
    pub fn stale(&self, present: bool, meta: &Option<Meta>, now: Option<u64>) -> (r: bool)
        ensures
            r == is_stale(present, meta.deep_view(), now, self.ttl),
    {
        if !present {
            return true;
        }
        match (meta, now) {
            // An archive that is present but unaccounted for is checked again
            // rather than trusted.
            (None, _) => true,
            (Some(_), None) => true,
            (Some(m), Some(now)) => now.saturating_sub(m.fetched_at) >= self.ttl,
        }
    }
}

/// An ecosystem's entries in a list.
pub open spec fn only(list: Seq<Ecosystem>, e: Ecosystem) -> Seq<Ecosystem>
    decreases list.len(),
{
    if list.len() == 0 {
        seq![]
    } else if list.last() == e {
        only(list.drop_last(), e).push(e)
    } else {
        only(list.drop_last(), e)
    }
}

/// Ecosystems in the order their archives are fetched: smallest first, so that
/// the quick wins land while the largest is still streaming.
pub open spec fn fetch_order(list: Seq<Ecosystem>) -> Seq<Ecosystem> {
    only(list, Ecosystem::CratesIo) + only(list, Ecosystem::Go) + only(list, Ecosystem::PyPI)
        + only(list, Ecosystem::Npm)
}

fn add_only(out: &mut Vec<Ecosystem>, list: &Vec<Ecosystem>, e: Ecosystem)
    ensures
        final(out)@ == old(out)@ + only(list@, e),
{
    let ghost start = out@;
    let mut i: usize = 0;
    proof {
        assert(start + only(list@.take(0), e) =~= start);
    }
    while i < list.len()
        invariant
            i <= list@.len(),
            out@ == start + only(list@.take(i as int), e),
        decreases list@.len() - i,
    {
        proof {
            assert(list@.take(i + 1).drop_last() =~= list@.take(i as int));
        }
        if list[i] == e {
            out.push(e);
            proof {
                assert(out@ =~= start + only(list@.take(i as int), e).push(e));
            }
        }
        i += 1;
    }
    proof {
        assert(list@.take(i as int) =~= list@);
    }
}

/// Ecosystems in the order their archives are fetched.
pub fn ordered(ecosystems: &Vec<Ecosystem>) -> (r: Vec<Ecosystem>)
    ensures
        r@ == fetch_order(ecosystems@),
{
    let mut out: Vec<Ecosystem> = Vec::new();
    add_only(&mut out, ecosystems, Ecosystem::CratesIo);
    add_only(&mut out, ecosystems, Ecosystem::Go);
    add_only(&mut out, ecosystems, Ecosystem::PyPI);
    add_only(&mut out, ecosystems, Ecosystem::Npm);
    proof {
        assert(out@ =~= fetch_order(ecosystems@));
    }
    out
}

proof fn lemma_only(list: Seq<Ecosystem>, e: Ecosystem)
    ensures
        forall|x: Ecosystem| #[trigger]
            only(list, e).to_multiset().count(x) == (if x == e {
                list.to_multiset().count(x)
            } else {
                0
            }),
    decreases list.len(),
{
    broadcast use vstd::seq_lib::group_to_multiset_ensures;

    if list.len() > 0 {
        let front = list.drop_last();
        lemma_only(front, e);
        assert(front.push(list.last()) =~= list);
        assert(list.to_multiset() =~= front.to_multiset().insert(list.last()));
        assert forall|x: Ecosystem| #[trigger]
            only(list, e).to_multiset().count(x) == (if x == e {
                list.to_multiset().count(x)
            } else {
                0
            }) by {
            assert(only(front, e).to_multiset().count(x) == (if x == e {
                front.to_multiset().count(x)
            } else {
                0
            }));
            if list.last() == e {
                assert(only(list, e).to_multiset() =~= only(front, e).to_multiset().insert(e));
            }
        }
    } else {
        assert forall|x: Ecosystem| #[trigger]
            only(list, e).to_multiset().count(x) == (if x == e {
                list.to_multiset().count(x)
            } else {
                0
            }) by {
            assert(!only(list, e).contains(x));
            assert(!list.contains(x));
        }
    }
}

/// Fetching in another order fetches the same archives.
pub proof fn the_fetch_order_loses_nothing(list: Seq<Ecosystem>)
    ensures
        fetch_order(list).to_multiset() == list.to_multiset(),
{
    broadcast use vstd::seq_lib::group_to_multiset_ensures;

    let a = only(list, Ecosystem::CratesIo);
    let b = only(list, Ecosystem::Go);
    let c = only(list, Ecosystem::PyPI);
    let d = only(list, Ecosystem::Npm);
    lemma_only(list, Ecosystem::CratesIo);
    lemma_only(list, Ecosystem::Go);
    lemma_only(list, Ecosystem::PyPI);
    lemma_only(list, Ecosystem::Npm);
    vstd::seq_lib::lemma_multiset_commutative(a, b);
    vstd::seq_lib::lemma_multiset_commutative(a + b, c);
    vstd::seq_lib::lemma_multiset_commutative(a + b + c, d);
    assert(fetch_order(list).to_multiset() =~= list.to_multiset()) by {
        assert forall|x: Ecosystem|
            fetch_order(list).to_multiset().count(x) == list.to_multiset().count(x) by {
            match x {
                Ecosystem::Npm => {},
                Ecosystem::Go => {},
                Ecosystem::PyPI => {},
                Ecosystem::CratesIo => {},
            }
        }
    }
}

/// What came of refreshing several ecosystems: an error naming every one that
/// could not be; the others are usable all the same.
pub fn ensured(failures: &Vec<String>) -> (r: Result<(), DbError>)
    ensures
        match r {
            Ok(_) => failures@.len() == 0,
            Err(e) => failures@.len() > 0 && e.deep_view() == DbErrorView::NotReady(
                joined_with(failures.deep_view(), "; "@),
            ),
        },
{
    if failures.len() == 0 {
        Ok(())
    } else {
        Err(DbError::NotReady(join_texts(failures, "; ")))
    }
}

/// What is left of another process having been waited for.
pub fn after_peer(ecosystem: Ecosystem, present: bool) -> (r: Result<(), DbError>)
    ensures
        match r {
            Ok(_) => present,
            Err(e) => !present && e.deep_view() == DbErrorView::NotReady(
                ecosystem_name(ecosystem)
                    + ": waited for another process and it produced nothing"@,
            ),
        },
{
    if present {
        Ok(())
    } else {
        Err(
            DbError::NotReady(
                ecosystem.as_str().to_owned().concat(
                    ": waited for another process and it produced nothing",
                ),
            ),
        )
    }
}

// ---- what is known about an archive ----

/// What is known about an archive without opening it.
#[derive(Clone, PartialEq, Eq, Debug)]
pub struct Meta {
    /// Sent back as `If-None-Match`.
    pub etag: String,
    /// When the archive was last confirmed current, updated on a 304 as well
    /// as on a download. Seconds since the epoch.
    pub fetched_at: u64,
    /// The checksum the server reported, or zero.
    pub crc32c: u32,
}

/// What a [`Meta`] says.
pub struct MetaView {
    pub etag: Seq<char>,
    pub fetched_at: u64,
    pub crc32c: u32,
}

impl DeepView for Meta {
    type V = MetaView;

    open spec fn deep_view(&self) -> MetaView {
        MetaView { etag: self.etag@, fetched_at: self.fetched_at, crc32c: self.crc32c }
    }
}

/// Whether an archive has to be checked again: it is missing, nothing is known
/// about it or about the time, or it was last checked too long ago.
pub open spec fn is_stale(present: bool, meta: Option<MetaView>, now: Option<u64>, ttl: u64) -> bool {
    !present || (meta is None) || (now is None) || elapsed(
        meta->Some_0.fetched_at,
        now->Some_0,
    ) >= ttl
}

/// The time between two moments, none where the second is not after the first.
pub open spec fn elapsed(since: u64, now: u64) -> int {
    if now > since {
        now - since
    } else {
        0
    }
}

/// An archive that was checked just now is not stale, and stays so until its
/// time is up.
pub proof fn a_checked_archive_is_fresh(meta: MetaView, now: u64, ttl: u64)
    requires
        meta.fetched_at <= now,
        now - meta.fetched_at < ttl,
    ensures
        !is_stale(true, Some(meta), Some(now), ttl),
{
}

/// The validator to send with a request. Only one whose archive is present: a
/// 304 would otherwise leave metadata and no data.
pub fn validator(meta: &Option<Meta>, present: bool) -> (r: Option<String>)
    ensures
        r.deep_view() == (match meta.deep_view() {
            Some(m) => if m.etag.len() > 0 && present { Some(m.etag) } else { None },
            None => None,
        }),
{
    match meta {
        Some(m) => {
            if !m.etag.as_str().is_empty() && present {
                Some(m.etag.clone())
            } else {
                None
            }
        },
        None => None,
    }
}

/// What to do with an answer.
#[derive(Clone, Debug)]
pub enum Answer {
    /// The archive is still current: record that it was checked.
    Current(Meta),
    /// There is a new archive to read.
    Download,
    /// No archive.
    Refused(DbError),
}

/// What an [`Answer`] says.
pub enum AnswerView {
    Current(MetaView),
    Download,
    Refused(DbErrorView),
}

impl DeepView for Answer {
    type V = AnswerView;

    open spec fn deep_view(&self) -> AnswerView {
        match self {
            Answer::Current(m) => AnswerView::Current(m.deep_view()),
            Answer::Download => AnswerView::Download,
            Answer::Refused(e) => AnswerView::Refused(e.deep_view()),
        }
    }
}

pub open spec fn answer_of(
    status: u16,
    meta: Option<MetaView>,
    now: u64,
    url: Seq<char>,
) -> AnswerView {
    if status == 304 {
        match meta {
            Some(m) => AnswerView::Current(MetaView { fetched_at: now, ..m }),
            None => AnswerView::Current(MetaView { etag: seq![], fetched_at: now, crc32c: 0 }),
        }
    } else if status == 200 {
        AnswerView::Download
    } else {
        AnswerView::Refused(
            DbErrorView::Fetch {
                url,
                message: "unexpected status "@ + decimal(status as nat),
            },
        )
    }
}

/// What to do with an answer of the bucket. A 304 records the check, so that
/// staleness is measured from now rather than from when the bytes changed.
pub fn answer(status: u16, meta: Option<Meta>, now: u64, url: &str) -> (r: Answer)
    ensures
        r.deep_view() == answer_of(status, meta.deep_view(), now, url@),
{
    if status == 304 {
        match meta {
            Some(m) => Answer::Current(Meta { etag: m.etag, fetched_at: now, crc32c: m.crc32c }),
            None => {
                let none = String::new();
                proof {
                    assert(none@ =~= seq![]);
                }
                Answer::Current(Meta { etag: none, fetched_at: now, crc32c: 0 })
            },
        }
    } else if status == 200 {
        Answer::Download
    } else {
        Answer::Refused(
            DbError::Fetch {
                url: url.to_owned(),
                message: "unexpected status ".to_owned().concat(number(status as u64).as_str()),
            },
        )
    }
}

/// What is recorded of an archive that has landed and been verified.
pub fn landed(etag: Option<&str>, now: u64, crc: Option<u32>) -> (r: Meta)
    ensures
        r.deep_view() == (MetaView {
            etag: match etag {
                Some(e) => e@,
                None => seq![],
            },
            fetched_at: now,
            crc32c: match crc {
                Some(c) => c,
                None => 0,
            },
        }),
{
    let etag = match etag {
        Some(e) => e.to_owned(),
        None => {
            let none = String::new();
            proof {
                assert(none@ =~= seq![]);
            }
            none
        },
    };
    Meta { etag, fetched_at: now, crc32c: crc.unwrap_or(0) }
}

/// Whether an archive has to be opened to see if it is readable. An archive is
/// only ever replaced whole, so an unchanged modification time means unchanged
/// bytes.
pub fn needs_validation(is_file: bool, modified: Option<u64>, validated: Option<u64>) -> (r: bool)
    ensures
        r == is_unvalidated(is_file, modified, validated),
{
    if !is_file {
        return false;
    }
    match (modified, validated) {
        (Some(m), Some(v)) => m != v,
        _ => true,
    }
}

// ---- checksums ----

/// The value of a base64 digit.
pub open spec fn digit64(c: char) -> Option<int> {
    if 'A' <= c <= 'Z' {
        Some(c as u32 - 'A' as u32)
    } else if 'a' <= c <= 'z' {
        Some(c as u32 - 'a' as u32 + 26)
    } else if '0' <= c <= '9' {
        Some(c as u32 - '0' as u32 + 52)
    } else if c == '+' {
        Some(62)
    } else if c == '/' {
        Some(63)
    } else {
        None
    }
}

/// The number some base64 digits spell.
pub open spec fn number64(s: Seq<char>) -> int
    decreases s.len(),
{
    if s.len() == 0 {
        0
    } else {
        number64(s.drop_last()) * 64 + digit64(s.last())->Some_0
    }
}

pub open spec fn power2(n: nat) -> int
    decreases n,
{
    if n == 0 {
        1
    } else {
        2 * power2((n - 1) as nat)
    }
}

/// Whether every character is a base64 digit.
pub open spec fn digits64(s: Seq<char>) -> bool {
    forall|i: int| 0 <= i < s.len() ==> digit64(#[trigger] s[i]) is Some
}

/// The bytes that base64 digits spell: eight bits each of the number they make
/// together, from the front, and a rest that fills no byte dropped.
pub open spec fn bytes64(s: Seq<char>) -> Seq<u8> {
    Seq::new(
        (6 * s.len() / 8) as nat,
        |k: int| ((number64(s) / power2((6 * s.len() - 8 * (k + 1)) as nat)) % 256) as u8,
    )
}

/// Standard base64: what comes before the padding, if it is all digits.
pub open spec fn base64_of(s: Seq<char>) -> Option<Seq<u8>> {
    let body = before(s, Class::One('='));
    if digits64(body) {
        Some(bytes64(body))
    } else {
        None
    }
}

fn digit_value(c: char) -> (r: Option<u32>)
    ensures
        match r {
            Some(v) => digit64(c) == Some(v as int) && v < 64,
            None => digit64(c) is None,
        },
{
    if 'A' <= c && c <= 'Z' {
        Some(c as u32 - 'A' as u32)
    } else if 'a' <= c && c <= 'z' {
        Some(c as u32 - 'a' as u32 + 26)
    } else if '0' <= c && c <= '9' {
        Some(c as u32 - '0' as u32 + 52)
    } else if c == '+' {
        Some(62)
    } else if c == '/' {
        Some(63)
    } else {
        None
    }
}

proof fn lemma_power2(n: nat)
    ensures
        power2(n) > 0,
        power2(n + 6) == 64 * power2(n),
        power2(n + 8) == 256 * power2(n),
    decreases n,
{
    reveal_with_fuel(power2, 10);
    if n > 0 {
        lemma_power2((n - 1) as nat);
    }
}

/// Six more bits below leave a quotient as it was, and put the old rest above
/// them.
proof fn lemma_shift(n: int, v: int, m: int)
    requires
        n >= 0,
        0 <= v < 64,
        m > 0,
    ensures
        (64 * n + v) / (64 * m) == n / m,
        (64 * n + v) % (64 * m) == 64 * (n % m) + v,
{
    lemma_fundamental_div_mod(n, m);
    let q = n / m;
    let r = n % m;
    assert(0 <= r < m);
    assert(64 * n + v == q * (64 * m) + (64 * r + v)) by (nonlinear_arith)
        requires
            n == m * q + r,
    ;
    lemma_fundamental_div_mod_converse(64 * n + v, 64 * m, q, 64 * r + v);
}

/// The eight bits above a rest.
proof fn lemma_byte(x: int, r: int)
    requires
        x >= 0,
        r > 0,
    ensures
        (x % (256 * r)) / r == (x / r) % 256,
        (x % (256 * r)) % r == x % r,
{
    lemma_fundamental_div_mod(x, r);
    let q = x / r;
    let low = x % r;
    assert(0 <= low < r);
    assert(q >= 0) by {
        vstd::arithmetic::div_mod::lemma_div_pos_is_pos(x, r);
    }
    let top = q / 256;
    let byte = q % 256;
    let rest = byte * r + low;
    assert(q == 256 * top + byte);
    assert(x == top * (256 * r) + rest) by (nonlinear_arith)
        requires
            x == r * q + low,
            q == 256 * top + byte,
            rest == byte * r + low,
    ;
    assert(0 <= rest < 256 * r) by (nonlinear_arith)
        requires
            0 <= byte < 256,
            0 <= low < r,
            rest == byte * r + low,
            r > 0,
    ;
    lemma_fundamental_div_mod_converse(x, 256 * r, top, rest);
    lemma_fundamental_div_mod_converse(rest, r, byte, low);
}

proof fn lemma_number64(s: Seq<char>)
    requires
        digits64(s),
    ensures
        number64(s) >= 0,
    decreases s.len(),
{
    if s.len() > 0 {
        assert(digits64(s.drop_last())) by {
            assert forall|i: int| 0 <= i < s.len() - 1 implies digit64(
                #[trigger] s.drop_last()[i],
            ) is Some by {
                assert(s.drop_last()[i] == s[i]);
            }
        }
        lemma_number64(s.drop_last());
        assert(digit64(s[s.len() - 1]) is Some);
    }
}

/// Standard base64, for the one four-byte value this program ever decodes.
pub fn base64_decode(s: &str) -> (r: Option<Vec<u8>>)
    ensures
        match r {
            Some(bytes) => base64_of(s@) == Some(bytes@),
            None => base64_of(s@) is None,
        },
{
    let all = chars(s);
    let body = up_to(all.as_slice(), Class::One('='));
    let ghost text = body@;
    let mut out: Vec<u8> = Vec::new();
    // What does not fill a byte yet, and how many bits that is.
    let mut rest: u32 = 0;
    let mut bits: u32 = 0;
    let mut i: usize = 0;
    proof {
        assert(text.take(0) =~= seq![]);
        assert(power2(0) == 1);
        assert(bytes64(text.take(0)) =~= out@);
    }
    while i < body.len()
        invariant
            i <= body@.len(),
            text == body@,
            text == before(s@, Class::One('=')),
            digits64(text.take(i as int)),
            bits == 0 || bits == 2 || bits == 4 || bits == 6,
            6 * i == 8 * out@.len() + bits,
            rest == number64(text.take(i as int)) % power2(bits as nat),
            0 <= rest < power2(bits as nat),
            out@ == bytes64(text.take(i as int)),
        decreases body@.len() - i,
    {
        let ghost so_far = text.take(i as int);
        let ghost next = text.take(i + 1);
        proof {
            assert(next.drop_last() =~= so_far);
            assert(next.last() == text[i as int]);
        }
        let v: u32 = match digit_value(body[i]) {
            Some(v) => v,
            None => {
                proof {
                    assert(digit64(text[i as int]) is None);
                }
                return None;
            },
        };
        proof {
            assert(digits64(next)) by {
                assert forall|k: int| 0 <= k < next.len() implies digit64(
                    #[trigger] next[k],
                ) is Some by {
                    if k < i {
                        assert(so_far[k] == next[k]);
                    }
                }
            }
            lemma_number64(so_far);
            lemma_power2(bits as nat);
            lemma_power2(0);
            reveal_with_fuel(power2, 8);
            lemma_shift(number64(so_far), v as int, power2(bits as nat));
            assert(number64(next) == 64 * number64(so_far) + v);
            lemma_number64(next);
        }
        let wide: u32 = rest * 64 + v;
        let have: u32 = bits + 6;
        proof {
            assert(power2(have as nat) == 64 * power2(bits as nat));
            assert(wide == number64(next) % power2(have as nat));
        }
        let ghost old_bytes = out@;
        if have >= 8 {
            let left: u32 = have - 8;
            let unit: u32 = if left == 0 { 1 } else if left == 2 { 4 } else { 16 };
            proof {
                lemma_power2(left as nat);
                assert(unit == power2(left as nat));
                assert(power2(have as nat) == 256 * power2(left as nat));
                lemma_byte(number64(next), power2(left as nat));
            }
            let byte: u32 = wide / unit;
            out.push(byte as u8);
            rest = wide % unit;
            bits = left;
        } else {
            rest = wide;
            bits = have;
        }
        proof {
            assert(out@.len() == (6 * next.len() / 8) as nat);
            assert(out@ =~= bytes64(next)) by {
                assert forall|k: int| 0 <= k < out@.len() implies out@[k] == bytes64(next)[k] by {
                    if k < old_bytes.len() {
                        let e = (6 * so_far.len() - 8 * (k + 1)) as nat;
                        assert((6 * next.len() - 8 * (k + 1)) as nat == e + 6);
                        lemma_power2(e);
                        lemma_shift(number64(so_far), v as int, power2(e));
                        assert(old_bytes[k] == bytes64(so_far)[k]);
                    } else {
                        assert((6 * next.len() - 8 * (k + 1)) as nat == bits as nat);
                    }
                }
            }
        }
        i += 1;
    }
    proof {
        assert(text.take(i as int) =~= text);
    }
    Some(out)
}

/// Four bytes as a number, the most significant first.
pub open spec fn big_endian(b: Seq<u8>) -> u32 {
    (b[0] * 16777216 + b[1] * 65536 + b[2] * 256 + b[3]) as u32
}

/// The checksum a list of hash parts names: the first of four bytes. A part
/// that claims to be one and does not decode ends the search.
pub open spec fn crc_in(parts: Seq<Seq<char>>) -> Option<u32>
    decreases parts.len(),
{
    if parts.len() == 0 {
        None
    } else {
        let trimmed = trim_of(parts[0], Class::Space);
        if "crc32c="@.is_prefix_of(trimmed) {
            match base64_of(trimmed.skip(7)) {
                None => None,
                Some(raw) => if raw.len() == 4 {
                    Some(big_endian(raw))
                } else {
                    crc_in(parts.skip(1))
                },
            }
        } else {
            crc_in(parts.skip(1))
        }
    }
}

/// The parts of some header values.
pub open spec fn header_parts(values: Seq<Seq<char>>) -> Seq<Seq<char>>
    decreases values.len(),
{
    if values.len() == 0 {
        seq![]
    } else {
        header_parts(values.drop_last()) + split_of(values.last(), Class::One(','))
    }
}

/// Reads Google Cloud Storage's `x-goog-hash: crc32c=<base64 big-endian u32>`,
/// from every value of that header that is text.
pub fn crc32c_from_header(values: &Vec<String>) -> (r: Option<u32>)
    ensures
        r == crc_in(header_parts(values.deep_view())),
{
    let ghost all = values.deep_view();
    let mut parts: Vec<String> = Vec::new();
    let mut i: usize = 0;
    proof {
        assert(parts.deep_view() =~= seq![]);
        reveal_strlit("crc32c=");
    }
    while i < values.len()
        invariant
            i <= values@.len(),
            all == values.deep_view(),
            parts.deep_view() == header_parts(all.take(i as int)),
        decreases values@.len() - i,
    {
        let ghost before_view = parts.deep_view();
        let ghost before_seq = parts@;
        proof {
            assert(all.take(i + 1).drop_last() =~= all.take(i as int));
            assert(all.take(i + 1).last() == values@[i as int]@);
        }
        let value = chars(values[i].as_str());
        let mut more = split(value.as_slice(), Class::One(','));
        let ghost more_view = more.deep_view();
        let ghost more_seq = more@;
        parts.append(&mut more);
        proof {
            assert(parts.deep_view() =~= before_view + more_view) by {
                assert forall|k: int| 0 <= k < parts@.len() implies parts.deep_view()[k] == (
                before_view + more_view)[k] by {
                    if k < before_seq.len() {
                        assert(parts@[k] == before_seq[k]);
                        assert(before_view[k] == before_seq[k]@);
                    } else {
                        assert(parts@[k] == more_seq[k - before_seq.len()]);
                        assert(more_view[k - before_seq.len()] == more_seq[k
                            - before_seq.len()]@);
                    }
                }
            }
        }
        i += 1;
    }
    proof {
        assert(all.take(i as int) =~= all);
    }
    let ghost found = parts.deep_view();
    let mut j: usize = 0;
    proof {
        assert(found.skip(0) =~= found);
    }
    while j < parts.len()
        invariant
            j <= parts@.len(),
            found == parts.deep_view(),
            found == header_parts(values.deep_view()),
            "crc32c="@.len() == 7,
            crc_in(found) == crc_in(found.skip(j as int)),
        decreases parts@.len() - j,
    {
        proof {
            assert(found.skip(j as int)[0] == parts@[j as int]@);
            assert(found.skip(j as int).skip(1) =~= found.skip(j + 1));
        }
        let text = chars(parts[j].as_str());
        let trimmed = trim(text.as_slice(), Class::Space);
        if starts_with(trimmed, "crc32c=") {
            let encoded = crate::text::string(part(trimmed, 7, trimmed.len()));
            proof {
                assert(encoded@ =~= trimmed@.skip(7));
            }
            match base64_decode(encoded.as_str()) {
                None => return None,
                Some(raw) => {
                    if raw.len() == 4 {
                        let n: u32 = raw[0] as u32 * 16777216 + raw[1] as u32 * 65536
                            + raw[2] as u32 * 256 + raw[3] as u32;
                        return Some(n);
                    }
                },
            }
        }
        j += 1;
    }
    None
}

/// What `crc32c::crc32c_append` makes of a checksum and the bytes that follow.
pub uninterp spec fn crc_appended(crc: u32, data: Seq<u8>) -> u32;

/// `crc32c::crc32c_append`: the CRC32C of what a checksum stands for with some
/// bytes behind it.
#[verifier::external_body]
fn append_crc(crc: u32, data: &[u8]) -> (r: u32)
    ensures
        r == crc_appended(crc, data@),
{
    crc32c::crc32c_append(crc, data)
}

/// The checksum of a file read in pieces.
pub open spec fn crc_of(pieces: Seq<Seq<u8>>) -> u32
    decreases pieces.len(),
{
    if pieces.len() == 0 {
        0
    } else {
        crc_appended(crc_of(pieces.drop_last()), pieces.last())
    }
}

/// The CRC32C of a file, a piece at a time: an archive is large, so reading it
/// back whole would double the peak memory of the download just finished.
#[derive(Clone, Copy, Debug)]
pub struct Checksum {
    pub crc: u32,
}

impl Checksum {
    pub fn new() -> (r: Checksum)
        ensures
            r.crc == crc_of(seq![]),
    {
        Checksum { crc: 0 }
    }

    /// One more piece of the file.
    pub fn update(&mut self, piece: &[u8])
        ensures
            final(self).crc == crc_appended(old(self).crc, piece@),
    {
        self.crc = append_crc(self.crc, piece);
    }
}

/// Reading one more piece is appending it.
pub proof fn a_checksum_follows_the_pieces(pieces: Seq<Seq<u8>>, piece: Seq<u8>)
    ensures
        crc_of(pieces.push(piece)) == crc_appended(crc_of(pieces), piece),
{
    assert(pieces.push(piece).drop_last() =~= pieces);
}

pub open spec fn mismatch_text(got: u32, want: u32) -> Seq<char> {
    "checksum mismatch: got "@ + hex_of(got as nat, 8) + ", want "@ + hex_of(want as nat, 8)
}

/// Whether what was downloaded is what the server said it would be. Without a
/// checksum to go by there is nothing to hold it to.
pub fn verify_checksum(path: &str, want: Option<u32>, got: u32) -> (r: Result<(), DbError>)
    ensures
        match r {
            Ok(_) => want is None || want == Some(got),
            Err(e) => want is Some && want != Some(got) && e.deep_view() == (DbErrorView::Fetch {
                url: path@,
                message: mismatch_text(got, want->Some_0),
            }),
        },
{
    match want {
        Some(w) => {
            if w == got {
                Ok(())
            } else {
                Err(
                    DbError::Fetch {
                        url: path.to_owned(),
                        message: "checksum mismatch: got ".to_owned().concat(
                            hex(got, 8).as_str(),
                        ).concat(", want ").concat(hex(w, 8).as_str()),
                    },
                )
            }
        },
        None => Ok(()),
    }
}

/// Whether what was downloaded is an archive: it opened as a zip that holds
/// something. `entries` is how many it holds, or why it did not open.
pub fn validate_entries(path: &str, entries: Result<usize, String>) -> (r: Result<(), DbError>)
    ensures
        match r {
            Ok(_) => entries is Ok && entries->Ok_0 > 0,
            Err(e) => match entries {
                Ok(n) => n == 0 && e.deep_view() == DbErrorView::NotReady(
                    path@ + ": zip archive is empty"@,
                ),
                Err(why) => e.deep_view() == DbErrorView::NotReady(
                    path@ + ": not a readable zip: "@ + why@,
                ),
            },
        },
{
    match entries {
        Ok(n) => {
            if n > 0 {
                Ok(())
            } else {
                Err(DbError::NotReady(path.to_owned().concat(": zip archive is empty")))
            }
        },
        Err(why) => Err(
            DbError::NotReady(
                path.to_owned().concat(": not a readable zip: ").concat(why.as_str()),
            ),
        ),
    }
}

/// Whether some bytes are an archive that holds something.
pub fn validate_zip(path: &str, bytes: &[u8]) -> (r: Result<(), DbError>)
    ensures
        match r {
            Ok(_) => zip_entries(bytes@) matches Some(raws) && raws.len() > 0,
            Err(e) => match zip_entries(bytes@) {
                Some(raws) => raws.len() == 0 && e.deep_view() == DbErrorView::NotReady(
                    path@ + ": zip archive is empty"@,
                ),
                None => e.deep_view() matches DbErrorView::NotReady(text) && (path@
                    + ": not a readable zip: "@).is_prefix_of(text),
            },
        },
{
    match open_zip(bytes) {
        Ok(archive) => validate_entries(path, Ok(zip_len(&archive))),
        Err(why) => {
            proof {
                let start = path@ + ": not a readable zip: "@;
                assert((start + why@).take(start.len() as int) =~= start);
            }
            validate_entries(path, Err(why))
        },
    }
}

/// Whether what was downloaded may be published: it is what the server said it
/// would be, where the server said, and an archive that holds something.
pub fn verify_archive(path: &str, want: Option<u32>, bytes: &[u8]) -> (r: Result<(), DbError>)
    ensures
        match r {
            Ok(_) => (want is None || want == Some(crc_of(seq![bytes@]))) && (zip_entries(
                bytes@,
            ) matches Some(raws) && raws.len() > 0),
            Err(DbError::Fetch { url, message }) => want is Some && want != Some(
                crc_of(seq![bytes@]),
            ) && url@ == path@ && message@ == mismatch_text(crc_of(seq![bytes@]), want->Some_0),
            Err(DbError::NotReady(text)) => (want is None || want == Some(crc_of(seq![bytes@])))
                && match zip_entries(bytes@) {
                Some(raws) => raws.len() == 0 && text@ == path@ + ": zip archive is empty"@,
                None => (path@ + ": not a readable zip: "@).is_prefix_of(text@),
            },
            Err(_) => false,
        },
{
    match want {
        Some(_) => {
            let mut sum = Checksum::new();
            sum.update(bytes);
            proof {
                a_checksum_follows_the_pieces(seq![], bytes@);
                assert(Seq::<Seq<u8>>::empty().push(bytes@) =~= seq![bytes@]);
            }
            match verify_checksum(path, want, sum.crc) {
                Ok(_) => validate_zip(path, bytes),
                Err(e) => Err(e),
            }
        },
        None => validate_zip(path, bytes),
    }
}

// ---- one advisory ----

impl Database {
    /// The bytes of an advisory, read back from what came of opening the archive
    /// of its ecosystem.
    ///
    /// Its text is kept out of the index because it dominates its size while
    /// being needed only for the few advisories a project actually matches.
    pub fn details(&self, ecosystem: Ecosystem, advisory_id: &str, file: Opened<'_>) -> (r: Result<
        Vec<u8>,
        DbError,
    >)
        ensures
            match file {
                Opened::Missing(why) => r matches Err(e) && e.deep_view() == DbErrorView::NotReady(
                    archive_of(self.root@, ecosystem) + ": "@ + why@,
                ),
                Opened::Unreadable(why) => r matches Err(e) && e.deep_view() == (DbErrorView::Io {
                    context: "open "@ + archive_of(self.root@, ecosystem),
                    message: why@,
                }),
                Opened::Bytes(bytes) => reads_back(
                    archive_of(self.root@, ecosystem),
                    ecosystem,
                    advisory_id@,
                    zip_entries(bytes@),
                    match r {
                        Ok(b) => Ok(b@),
                        Err(e) => Err(e.deep_view()),
                    },
                ),
            },
    {
        let path = self.archive_path(ecosystem);
        match file {
            Opened::Missing(why) => Err(DbError::NotReady(path.concat(": ").concat(why.as_str()))),
            Opened::Unreadable(message) => Err(
                DbError::Io { context: "open ".to_owned().concat(path.as_str()), message },
            ),
            Opened::Bytes(bytes) => advisory_named(path.as_str(), ecosystem, advisory_id, bytes),
        }
    }
}

/// The text of an advisory, or an error where its bytes could not be parsed.
pub fn described(advisory_id: &str, parsed: Result<String, String>) -> (r: Result<String, DbError>)
    ensures
        match r {
            Ok(text) => parsed matches Ok(t) && text@ == t@,
            Err(e) => parsed matches Err(why) && e.deep_view() == DbErrorView::NotReady(
                "decode "@ + advisory_id@ + ": "@ + why@,
            ),
        },
{
    match parsed {
        Ok(text) => Ok(text),
        Err(why) => Err(
            DbError::NotReady(
                "decode ".to_owned().concat(advisory_id).concat(": ").concat(why.as_str()),
            ),
        ),
    }
}

// ---- bringing an archive up to date ----

/// What is done next to bring an archive up to date.
#[derive(Clone, Copy, PartialEq, Eq, Debug, Structural)]
pub enum Task {
    /// Look at the file.
    Inspect,
    /// Open it, to see whether it is readable.
    Validate,
    /// Record that it is, as it stands.
    Remember,
    /// Delete it, and what is known about it.
    Discard,
    /// Read what is known about it.
    Look,
    /// Take the lock, if it is free.
    Lock,
    /// Read what is known about it again, under the lock: another process may
    /// have finished in between.
    LookAgain,
    /// Ask for it.
    Fetch,
    /// Wait for the process that holds the lock.
    Wait,
    Finish,
}

/// What carrying out a [`Task`] showed.
#[derive(Clone, Debug)]
pub enum Seen {
    /// A file, or none, and the modification times it has and was last
    /// validated at.
    Entry { is_file: bool, modified: Option<u64>, validated: Option<u64> },
    /// Whether the archive is readable.
    Readable(bool),
    /// Whether the archive is there, what is known about it, and the time.
    Known { present: bool, meta: Option<Meta>, now: Option<u64> },
    /// Whether the lock was free.
    Locked(bool),
    /// Nothing: the task is done.
    Done,
}

/// What a [`Seen`] says.
pub enum SeenView {
    Entry { is_file: bool, modified: Option<u64>, validated: Option<u64> },
    Readable(bool),
    Known { present: bool, meta: Option<MetaView>, now: Option<u64> },
    Locked(bool),
    Done,
}

impl DeepView for Seen {
    type V = SeenView;

    open spec fn deep_view(&self) -> SeenView {
        match self {
            Seen::Entry { is_file, modified, validated } => SeenView::Entry {
                is_file: *is_file,
                modified: *modified,
                validated: *validated,
            },
            Seen::Readable(b) => SeenView::Readable(*b),
            Seen::Known { present, meta, now } => SeenView::Known {
                present: *present,
                meta: meta.deep_view(),
                now: *now,
            },
            Seen::Locked(b) => SeenView::Locked(*b),
            Seen::Done => SeenView::Done,
        }
    }
}

/// Whether a file has to be opened to see if it is readable: it was not
/// validated as it stands.
pub open spec fn is_unvalidated(
    is_file: bool,
    modified: Option<u64>,
    validated: Option<u64>,
) -> bool {
    is_file && (modified is None || modified != validated)
}

/// Whether what is known about an archive says that it has to be checked again.
pub open spec fn shows_stale(seen: SeenView, ttl: u64) -> bool {
    seen matches SeenView::Known { present, meta, now } && is_stale(present, meta, now, ttl)
}

/// What follows a task, given what it showed. The archive is repaired before its
/// freshness is decided: a corrupt one is stale whatever is recorded of it. What
/// is fresh is left alone, and what another process refreshes is waited for. An
/// answer that does not fit its task ends the work.
pub open spec fn task_after(task: Task, seen: SeenView, ttl: u64) -> Task {
    match (task, seen) {
        (Task::Inspect, SeenView::Entry { is_file, modified, validated }) => if is_unvalidated(
            is_file,
            modified,
            validated,
        ) {
            Task::Validate
        } else {
            Task::Look
        },
        (Task::Validate, SeenView::Readable(readable)) => if readable {
            Task::Remember
        } else {
            Task::Discard
        },
        (Task::Remember, SeenView::Done) => Task::Look,
        (Task::Discard, SeenView::Done) => Task::Look,
        (Task::Look, SeenView::Known { .. }) => if shows_stale(seen, ttl) {
            Task::Lock
        } else {
            Task::Finish
        },
        (Task::Lock, SeenView::Locked(free)) => if free {
            Task::LookAgain
        } else {
            Task::Wait
        },
        (Task::LookAgain, SeenView::Known { .. }) => if shows_stale(seen, ttl) {
            Task::Fetch
        } else {
            Task::Finish
        },
        _ => Task::Finish,
    }
}

impl Database {
    /// What is done after a task, given what it showed. The first is
    /// [`Task::Inspect`].
    pub fn after(&self, task: Task, seen: &Seen) -> (r: Task)
        ensures
            r == task_after(task, seen.deep_view(), self.ttl),
    {
        match (task, seen) {
            (Task::Inspect, Seen::Entry { is_file, modified, validated }) => {
                if needs_validation(*is_file, *modified, *validated) {
                    Task::Validate
                } else {
                    Task::Look
                }
            },
            (Task::Validate, Seen::Readable(readable)) => {
                if *readable {
                    Task::Remember
                } else {
                    Task::Discard
                }
            },
            (Task::Remember, Seen::Done) => Task::Look,
            (Task::Discard, Seen::Done) => Task::Look,
            (Task::Look, Seen::Known { present, meta, now }) => {
                if self.stale(*present, meta, *now) {
                    Task::Lock
                } else {
                    Task::Finish
                }
            },
            (Task::Lock, Seen::Locked(free)) => {
                if *free {
                    Task::LookAgain
                } else {
                    Task::Wait
                }
            },
            (Task::LookAgain, Seen::Known { present, meta, now }) => {
                if self.stale(*present, meta, *now) {
                    Task::Fetch
                } else {
                    Task::Finish
                }
            },
            _ => Task::Finish,
        }
    }
}

/// Whether some tasks, with what each showed, are how an archive is brought up
/// to date, as far as they go.
pub open spec fn is_refresh(steps: Seq<(Task, SeenView)>, ttl: u64) -> bool {
    &&& steps.len() > 0 ==> steps[0].0 == Task::Inspect
    &&& forall|i: int|
        0 < i < steps.len() ==> (#[trigger] steps[i]).0 == task_after(
            steps[i - 1].0,
            steps[i - 1].1,
            ttl,
        )
}

/// How far a task is on the way.
pub open spec fn stage(task: Task) -> nat {
    match task {
        Task::Inspect => 0,
        Task::Validate => 1,
        Task::Remember => 2,
        Task::Discard => 2,
        Task::Look => 3,
        Task::Lock => 4,
        Task::LookAgain => 5,
        Task::Wait => 5,
        Task::Fetch => 6,
        Task::Finish => 7,
    }
}

/// Every task leads on: no task is done twice, and the work ends.
pub proof fn a_refresh_ends(task: Task, seen: SeenView, ttl: u64)
    ensures
        task != Task::Finish ==> stage(task_after(task, seen, ttl)) > stage(task),
{
}

/// A fresh archive causes no request: one is made only after the archive was
/// seen to be stale, the lock was taken, and it was seen to be stale again.
pub proof fn a_fresh_archive_causes_no_request(
    steps: Seq<(Task, SeenView)>,
    ttl: u64,
    k: int,
)
    requires
        is_refresh(steps, ttl),
        0 <= k < steps.len(),
        steps[k].0 == Task::Fetch,
    ensures
        k >= 3,
        steps[k - 1].0 == Task::LookAgain && shows_stale(steps[k - 1].1, ttl),
        steps[k - 2] == (Task::Lock, SeenView::Locked(true)),
        steps[k - 3].0 == Task::Look && shows_stale(steps[k - 3].1, ttl),
{
    assert(k > 0 && steps[k - 1].0 == Task::LookAgain);
    assert(k > 1 && steps[k - 2].0 == Task::Lock);
    assert(k > 2 && steps[k - 3].0 == Task::Look);
}

/// An archive is repaired before its freshness is decided: before that is looked
/// at, the archive was validated as it stands, now or earlier, or discarded, or
/// there is none.
pub proof fn an_archive_is_repaired_before_its_freshness_is_decided(
    steps: Seq<(Task, SeenView)>,
    ttl: u64,
    k: int,
)
    requires
        is_refresh(steps, ttl),
        0 <= k < steps.len(),
        steps[k].0 == Task::Look,
    ensures
        k >= 1,
        match steps[k - 1].0 {
            Task::Inspect => steps[k - 1].1 matches SeenView::Entry { is_file, modified, validated }
                && !is_unvalidated(is_file, modified, validated),
            Task::Remember => k >= 2 && steps[k - 2] == (Task::Validate, SeenView::Readable(true)),
            Task::Discard => k >= 2 && steps[k - 2] == (Task::Validate, SeenView::Readable(false)),
            _ => false,
        },
{
    assert(k > 0);
    assert(steps[k].0 == task_after(steps[k - 1].0, steps[k - 1].1, ttl));
    if steps[k - 1].0 == Task::Remember || steps[k - 1].0 == Task::Discard {
        assert(k > 1);
        assert(steps[k - 1].0 == task_after(steps[k - 2].0, steps[k - 2].1, ttl));
    }
}

/// An archive that is not readable is never used: it is discarded at once, and
/// being missing it is stale.
pub proof fn an_unreadable_archive_is_discarded(ttl: u64, meta: Option<MetaView>, now: Option<u64>)
    ensures
        task_after(Task::Validate, SeenView::Readable(false), ttl) == Task::Discard,
        task_after(Task::Discard, SeenView::Done, ttl) == Task::Look,
        shows_stale(SeenView::Known { present: false, meta, now }, ttl),
{
}

// ---- waiting ----

/// How many milliseconds another process is waited for at most: generous enough
/// for the largest archive on a slow link, short enough that a dead peer does
/// not hang a scan forever.
pub const PEER_WAIT: u64 = 900_000;

/// How many milliseconds pass between two looks at what another process does.
pub const PEER_PAUSE: u64 = 250;

/// How long to pause before looking again whether another process is done, in
/// milliseconds, given how many have passed; nothing once that was long enough.
pub fn peer_pause(waited: u64) -> (r: Option<u64>)
    ensures
        r == (if waited < PEER_WAIT { Some(PEER_PAUSE) } else { None }),
{
    if waited < PEER_WAIT {
        Some(PEER_PAUSE)
    } else {
        None
    }
}

/// How long to pause before a rename that was refused is tried again, in
/// milliseconds, given how many tries were made; nothing where it is not tried
/// again. Only Windows refuses to rename over a file that another process has
/// open, and only for as long as that reads it.
pub open spec fn pause_after(tries: u32, windows: bool) -> Option<u64> {
    if !windows {
        None
    } else if tries <= 1 {
        Some(20)
    } else if tries == 2 {
        Some(40)
    } else if tries == 3 {
        Some(80)
    } else if tries == 4 {
        Some(160)
    } else {
        None
    }
}

pub fn rename_pause(tries: u32, windows: bool) -> (r: Option<u64>)
    ensures
        r == pause_after(tries, windows),
{
    if !windows || tries > 4 {
        None
    } else if tries <= 1 {
        Some(20)
    } else if tries == 2 {
        Some(40)
    } else if tries == 3 {
        Some(80)
    } else {
        Some(160)
    }
}

} // verus!
