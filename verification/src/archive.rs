//! Advisory archives: what a zip holds, and which of it are advisories.
use crate::db::{DbError, DbErrorView};
use crate::load::{is_advisory_name, is_advisory_name_of, LoadError, LoadErrorView};
use crate::model::{ecosystem_name, Ecosystem};
use vstd::prelude::*;

verus! {

/// `std::io::Cursor`: bytes with a place to read from.
#[verifier::external_type_specification]
#[verifier::external_body]
#[verifier::reject_recursive_types(T)]
pub struct ExCursor<T>(std::io::Cursor<T>);

/// `zip::ZipArchive`: an archive whose directory has been read.
#[verifier::external_type_specification]
#[verifier::external_body]
#[verifier::reject_recursive_types(R)]
pub struct ExZipArchive<R>(zip::ZipArchive<R>);

/// An entry of an archive that could be opened.
#[derive(Debug)]
pub struct Raw {
    /// Its name, where it can be decoded.
    pub name: Option<String>,
    /// What it holds, where it can be inflated and its checksum is right, or
    /// what went wrong.
    pub bytes: Result<Vec<u8>, String>,
}

/// What a [`Raw`] says.
pub struct RawView {
    pub name: Option<Seq<char>>,
    pub bytes: Option<Seq<u8>>,
}

impl DeepView for Raw {
    type V = RawView;

    open spec fn deep_view(&self) -> RawView {
        RawView {
            name: self.name.deep_view(),
            bytes: match self.bytes {
                Ok(bytes) => Some(bytes@),
                Err(_) => None,
            },
        }
    }
}

/// What `zip::ZipArchive` reads in some bytes: the entries in the order of the
/// directory, each where it can be opened, or nothing where they are no archive.
pub uninterp spec fn zip_entries(bytes: Seq<u8>) -> Option<Seq<Option<RawView>>>;

/// The entries of an archive, in the order of its directory.
pub uninterp spec fn held(archive: zip::ZipArchive<std::io::Cursor<&[u8]>>) -> Seq<Option<RawView>>;

/// `zip::ZipArchive::new` on bytes in memory: an archive that holds what
/// [`zip_entries`] names for the bytes, or an error where that names nothing.
#[verifier::external_body]
pub(crate) fn open_zip<'a>(bytes: &'a [u8]) -> (r: Result<zip::ZipArchive<std::io::Cursor<&'a [u8]>>, String>)
    ensures
        match r {
            Ok(archive) => zip_entries(bytes@) == Some(held(archive)),
            Err(_) => zip_entries(bytes@) is None,
        },
{
    zip::ZipArchive::new(std::io::Cursor::new(bytes)).map_err(|e| e.to_string())
}

/// `zip::ZipArchive::len`: how many entries there are.
#[verifier::external_body]
pub(crate) fn zip_len(archive: &zip::ZipArchive<std::io::Cursor<&[u8]>>) -> (r: usize)
    ensures
        r == held(*archive).len(),
{
    archive.len()
}

/// `zip::ZipArchive::by_index`, and the name and all bytes of the entry that it
/// gives; an error where it gives none. What the archive holds stays as it is.
/// The text of an error is left unsaid.
#[verifier::external_body]
fn zip_entry(archive: &mut zip::ZipArchive<std::io::Cursor<&[u8]>>, i: usize) -> (r: Result<
    Raw,
    String,
>)
    requires
        i < held(*old(archive)).len(),
    ensures
        held(*final(archive)) == held(*old(archive)),
        match r {
            Ok(raw) => held(*old(archive))[i as int] == Some(raw.deep_view()),
            Err(_) => held(*old(archive))[i as int] is None,
        },
{
    let mut file = archive.by_index(i).map_err(|e| e.to_string())?;
    let name = file.name().ok().map(|name| name.into_owned());
    let mut bytes: Vec<u8> = Vec::new();
    let read = std::io::Read::read_to_end(&mut file, &mut bytes);
    Ok(Raw { name, bytes: read.map(|_| bytes).map_err(|e| e.to_string()) })
}

/// `zip::ZipArchive::index_for_name`: the index of an entry that has the name,
/// where that opens, or nothing where none that opens has it. Which one it is
/// where two names decode to the same text is left unsaid.
#[verifier::external_body]
fn zip_find(archive: &zip::ZipArchive<std::io::Cursor<&[u8]>>, name: &str) -> (r: Option<usize>)
    ensures
        match r {
            Some(i) => i < held(*archive).len() && (held(*archive)[i as int] matches Some(raw)
                ==> raw.name == Some(name@)),
            None => forall|j: int|
                0 <= j < held(*archive).len() ==> ((#[trigger] held(*archive)[j]) matches Some(raw)
                    ==> raw.name != Some(name@)),
        },
{
    archive.index_for_name(name)
}

/// What an entry is.
#[derive(Clone, Debug)]
pub enum Found {
    /// No advisory, by its name or for want of one.
    Other,
    /// An advisory that cannot be read.
    Unreadable,
    /// The bytes of an advisory.
    Bytes(Vec<u8>),
}

/// What a [`Found`] says.
pub enum FoundView {
    Other,
    Unreadable,
    Bytes(Seq<u8>),
}

impl DeepView for Found {
    type V = FoundView;

    open spec fn deep_view(&self) -> FoundView {
        match self {
            Found::Other => FoundView::Other,
            Found::Unreadable => FoundView::Unreadable,
            Found::Bytes(b) => FoundView::Bytes(b@),
        }
    }
}

/// What an entry is: what does not open, has no name or is not named like an
/// advisory is none.
pub open spec fn sorted_out(raw: Option<RawView>) -> FoundView {
    match raw {
        Some(RawView { name: Some(name), bytes }) => if !is_advisory_name_of(name) {
            FoundView::Other
        } else {
            match bytes {
                Some(bytes) => FoundView::Bytes(bytes),
                None => FoundView::Unreadable,
            }
        },
        _ => FoundView::Other,
    }
}

/// What the entries of an archive are, in order.
pub open spec fn found_in(raws: Seq<Option<RawView>>) -> Seq<FoundView> {
    Seq::new(raws.len(), |i: int| sorted_out(raws[i]))
}

/// What an entry is, given what came of opening it.
pub fn sort_out(raw: Option<Raw>) -> (r: Found)
    ensures
        r.deep_view() == sorted_out(raw.deep_view()),
{
    match raw {
        Some(raw) => match raw.name {
            Some(name) => {
                if !is_advisory_name(name.as_str()) {
                    Found::Other
                } else {
                    match raw.bytes {
                        Ok(bytes) => Found::Bytes(bytes),
                        Err(_) => Found::Unreadable,
                    }
                }
            },
            None => Found::Other,
        },
        None => Found::Other,
    }
}

/// The archive that some bytes are. The error names the file they come from.
pub fn open<'a>(path: &str, bytes: &'a [u8]) -> (r: Result<
    zip::ZipArchive<std::io::Cursor<&'a [u8]>>,
    LoadError,
>)
    ensures
        match r {
            Ok(archive) => zip_entries(bytes@) == Some(held(archive)),
            Err(LoadError::Zip { path: named, .. }) => zip_entries(bytes@) is None && named@ == path@,
            Err(_) => false,
        },
{
    match open_zip(bytes) {
        Ok(archive) => Ok(archive),
        Err(message) => Err(LoadError::Zip { path: path.to_owned(), message }),
    }
}

/// What came of opening a file.
#[derive(Clone, Debug)]
pub enum Opened<'a> {
    /// It is not there.
    Missing(String),
    /// It is there and cannot be read.
    Unreadable(String),
    Bytes(&'a [u8]),
}

/// The archive that a file is, given what came of opening it. The error names
/// the file.
pub fn open_file<'a>(path: &str, file: Opened<'a>) -> (r: Result<
    zip::ZipArchive<std::io::Cursor<&'a [u8]>>,
    LoadError,
>)
    ensures
        match file {
            Opened::Missing(why) => r matches Err(e) && e.deep_view() == (LoadErrorView::Open {
                path: path@,
                message: why@,
            }),
            Opened::Unreadable(why) => r matches Err(e) && e.deep_view() == (LoadErrorView::Open {
                path: path@,
                message: why@,
            }),
            Opened::Bytes(bytes) => match r {
                Ok(archive) => zip_entries(bytes@) == Some(held(archive)),
                Err(e) => zip_entries(bytes@) is None && (e.deep_view() matches LoadErrorView::Zip {
                    path: named,
                    ..
                } && named == path@),
            },
        },
{
    match file {
        Opened::Missing(message) => Err(LoadError::Open { path: path.to_owned(), message }),
        Opened::Unreadable(message) => Err(LoadError::Open { path: path.to_owned(), message }),
        Opened::Bytes(bytes) => open(path, bytes),
    }
}

/// How many entries an archive has.
pub fn count(archive: &zip::ZipArchive<std::io::Cursor<&[u8]>>) -> (r: usize)
    ensures
        r == held(*archive).len(),
{
    zip_len(archive)
}

/// What the entry at an index is.
pub fn advisory_at(archive: &mut zip::ZipArchive<std::io::Cursor<&[u8]>>, i: usize) -> (r: Found)
    requires
        i < held(*old(archive)).len(),
    ensures
        held(*final(archive)) == held(*old(archive)),
        r.deep_view() == sorted_out(held(*old(archive))[i as int]),
{
    match zip_entry(archive, i) {
        Ok(raw) => sort_out(Some(raw)),
        Err(_) => sort_out(None),
    }
}

/// What the entries of a stretch of an archive are, in order: the whole of it,
/// or the share of one worker.
pub fn stretch(
    archive: &mut zip::ZipArchive<std::io::Cursor<&[u8]>>,
    from: usize,
    to: usize,
) -> (r: Vec<Found>)
    requires
        from <= to <= held(*old(archive)).len(),
    ensures
        held(*final(archive)) == held(*old(archive)),
        r.deep_view() == found_in(held(*old(archive)).subrange(from as int, to as int)),
{
    let ghost raws = held(*archive);
    let ghost want = found_in(raws.subrange(from as int, to as int));
    let mut out: Vec<Found> = Vec::new();
    let mut i: usize = from;
    while i < to
        invariant
            from <= i <= to <= raws.len(),
            held(*archive) == raws,
            want == found_in(raws.subrange(from as int, to as int)),
            out@.len() == i - from,
            forall|k: int| 0 <= k < out@.len() ==> (#[trigger] out@[k]).deep_view() == want[k],
        decreases to - i,
    {
        out.push(advisory_at(archive, i));
        i += 1;
    }
    proof {
        assert(out.deep_view() =~= want);
    }
    out
}

/// Reading an archive in pieces is reading it in turn: what two stretches that
/// meet give, one behind the other, is what the whole gives.
pub proof fn pieces_make_the_whole(raws: Seq<Option<RawView>>, at: int)
    requires
        0 <= at <= raws.len(),
    ensures
        found_in(raws.subrange(0, at)) + found_in(raws.subrange(at, raws.len() as int))
            == found_in(raws),
{
    assert(found_in(raws.subrange(0, at)) + found_in(raws.subrange(at, raws.len() as int))
        =~= found_in(raws));
}

// ---- one advisory ----

/// How archives name the entry of an advisory.
pub open spec fn entry_name(id: Seq<char>) -> Seq<char> {
    id + ".json"@
}

/// Whether an entry that opens has the name of an advisory.
pub open spec fn is_entry_of(raw: Option<RawView>, id: Seq<char>) -> bool {
    raw matches Some(raw) && raw.name == Some(entry_name(id))
}

/// Whether no entry that opens has the name of an advisory.
pub open spec fn none_of(raws: Seq<Option<RawView>>, id: Seq<char>) -> bool {
    forall|i: int| 0 <= i < raws.len() ==> !is_entry_of(#[trigger] raws[i], id)
}

pub open spec fn absent_text(ecosystem: Ecosystem, id: Seq<char>) -> Seq<char> {
    id + " in "@ + ecosystem_name(ecosystem) + ": "@
}

/// What an advisory is read back as from an archive: `entries` are those of
/// [`zip_entries`]. It is not there where the archive does not open, where no
/// entry has its name, or where an entry does not open; it is unreadable where
/// its own entry is.
pub open spec fn reads_back(
    path: Seq<char>,
    ecosystem: Ecosystem,
    id: Seq<char>,
    entries: Option<Seq<Option<RawView>>>,
    r: Result<Seq<u8>, DbErrorView>,
) -> bool {
    match entries {
        None => r matches Err(DbErrorView::NotReady(text)) && (path + ": "@).is_prefix_of(text),
        Some(raws) => match r {
            Ok(bytes) => raws.contains(
                Some(RawView { name: Some(entry_name(id)), bytes: Some(bytes) }),
            ),
            Err(DbErrorView::Io { context, .. }) => context == "read advisory"@ && raws.contains(
                Some(RawView { name: Some(entry_name(id)), bytes: None }),
            ),
            Err(DbErrorView::NotReady(text)) => {
                ||| text == absent_text(ecosystem, id) + "specified file not found in archive"@
                    && none_of(raws, id)
                ||| absent_text(ecosystem, id).is_prefix_of(text) && raws.contains(None)
            },
            Err(_) => false,
        },
    }
}

/// The bytes of an advisory, found by its id in the bytes of an archive.
/// Archives name each entry after its advisory.
pub fn advisory_named(path: &str, ecosystem: Ecosystem, id: &str, bytes: &[u8]) -> (r: Result<
    Vec<u8>,
    DbError,
>)
    ensures
        reads_back(
            path@,
            ecosystem,
            id@,
            zip_entries(bytes@),
            match r {
                Ok(b) => Ok(b@),
                Err(e) => Err(e.deep_view()),
            },
        ),
{
    let mut archive = match open_zip(bytes) {
        Ok(archive) => archive,
        Err(why) => {
            let text = path.to_owned().concat(": ").concat(why.as_str());
            proof {
                assert(text@.take((path@ + ": "@).len() as int) =~= path@ + ": "@);
            }
            return Err(DbError::NotReady(text));
        },
    };
    let ghost raws = held(archive);
    let name = id.to_owned().concat(".json");
    let absent = id.to_owned().concat(" in ").concat(ecosystem.as_str()).concat(": ");
    let i: usize = match zip_find(&archive, name.as_str()) {
        Some(i) => i,
        None => {
            let text = absent.concat("specified file not found in archive");
            return Err(DbError::NotReady(text));
        },
    };
    match zip_entry(&mut archive, i) {
        Ok(raw) => {
            proof {
                assert(raws[i as int] == Some(raw.deep_view()));
            }
            match raw.bytes {
                Ok(bytes) => Ok(bytes),
                Err(message) => Err(
                    DbError::Io { context: "read advisory".to_owned(), message },
                ),
            }
        },
        Err(why) => {
            proof {
                assert(raws[i as int] is None);
            }
            Err(DbError::NotReady(absent.concat(why.as_str())))
        },
    }
}

/// An advisory that is there is read back: where every entry of an archive
/// opens and just one has the name of the advisory, its bytes come back, and an
/// error only where they cannot be read.
pub proof fn an_advisory_that_is_there_is_read_back(
    path: Seq<char>,
    ecosystem: Ecosystem,
    id: Seq<char>,
    raws: Seq<Option<RawView>>,
    r: Result<Seq<u8>, DbErrorView>,
    at: int,
)
    requires
        reads_back(path, ecosystem, id, Some(raws), r),
        !raws.contains(None),
        0 <= at < raws.len(),
        is_entry_of(raws[at], id),
        forall|i: int| 0 <= i < raws.len() && is_entry_of(#[trigger] raws[i], id) ==> i == at,
    ensures
        match raws[at]->Some_0.bytes {
            Some(bytes) => r == Ok::<Seq<u8>, DbErrorView>(bytes),
            None => r matches Err(DbErrorView::Io { .. }),
        },
{
    match r {
        Ok(bytes) => {
            let raw = Some(RawView { name: Some(entry_name(id)), bytes: Some(bytes) });
            assert(raws.contains(raw));
            let i = choose|i: int| 0 <= i < raws.len() && raws[i] == raw;
            assert(is_entry_of(raws[i], id));
            assert(i == at);
            assert(raws[at] == raw);
        },
        Err(DbErrorView::Io { .. }) => {
            let raw = Some(RawView { name: Some(entry_name(id)), bytes: None });
            let i = choose|i: int| 0 <= i < raws.len() && raws[i] == raw;
            assert(is_entry_of(raws[i], id));
            assert(i == at);
        },
        Err(DbErrorView::NotReady(_)) => {
            assert(none_of(raws, id));
            assert(!is_entry_of(raws[at], id));
        },
        Err(_) => {
            assert(false);
        },
    }
}

} // verus!
