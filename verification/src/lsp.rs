//! What the protocol layer decides: which files matter, what a URI names, and
//! which text a file has.
use crate::diagnostics::uri_of;
use crate::extract::{format_of, is_manifest_name, is_requirements_name, Format};
use crate::path::{file_name, name_of, normal, normal_of};
use crate::read::MAX_MANIFEST_BYTES;
use crate::span::Encoding;
use crate::text::{begins, chars, contains, same, string, utf8_len};
use vstd::prelude::*;
use vstd::utf8::{decode_utf8, encode_utf8, valid_utf8};

verus! {

// ---- files ----

/// The files worth watching, besides requirements files. One list, so that the
/// watcher and the "is this a manifest" test can never disagree.
///
/// Deliberately wider than what is parsed: a `yarn.lock` or `go.sum` changing
/// means the project's dependencies changed, which is worth a rescan even
/// though they are read from the manifest beside it.
pub open spec fn watched_names() -> Seq<Seq<char>> {
    seq![
        "package.json"@,
        "package-lock.json"@,
        "npm-shrinkwrap.json"@,
        "yarn.lock"@,
        "pnpm-lock.yaml"@,
        "bun.lock"@,
        "go.mod"@,
        "go.sum"@,
        "pyproject.toml"@,
        "poetry.lock"@,
        "uv.lock"@,
        "Cargo.toml"@,
        "Cargo.lock"@,
    ]
}

pub open spec fn is_watched_name(name: Seq<char>) -> bool {
    watched_names().contains(name) || is_requirements_name(name)
}

/// The files worth watching, besides requirements files.
pub fn manifests() -> (r: Vec<String>)
    ensures
        r.deep_view() == watched_names(),
{
    let r = vec![
        "package.json".to_owned(),
        "package-lock.json".to_owned(),
        "npm-shrinkwrap.json".to_owned(),
        "yarn.lock".to_owned(),
        "pnpm-lock.yaml".to_owned(),
        "bun.lock".to_owned(),
        "go.mod".to_owned(),
        "go.sum".to_owned(),
        "pyproject.toml".to_owned(),
        "poetry.lock".to_owned(),
        "uv.lock".to_owned(),
        "Cargo.toml".to_owned(),
        "Cargo.lock".to_owned(),
    ];
    proof {
        assert(r.deep_view() =~= watched_names());
    }
    r
}

/// Whether a file's dependencies may have changed when it did.
pub fn is_manifest(path: &str) -> (r: bool)
    ensures
        r == is_watched_name(name_of(path@)),
{
    let name = file_name(path);
    let list = manifests();
    contains(&list, name.as_str()) || crate::extract::parser_for_name(name.as_str()) == Some(
        Format::Requirements,
    )
}

pub open spec fn globs_of() -> Seq<Seq<char>> {
    Seq::new(watched_names().len(), |i: int| "**/"@ + watched_names()[i]).push(
        "**/requirements*.txt"@,
    )
}

/// The patterns of the files worth watching.
pub fn watched_globs() -> (r: Vec<String>)
    ensures
        r.deep_view() == globs_of(),
{
    let list = manifests();
    let ghost names = list.deep_view();
    let mut out: Vec<String> = Vec::new();
    let mut i: usize = 0;
    while i < list.len()
        invariant
            i <= list@.len(),
            names == list.deep_view(),
            out@.len() == i,
            forall|j: int| 0 <= j < i ==> (#[trigger] out@[j])@ == "**/"@ + names[j],
        decreases list@.len() - i,
    {
        out.push("**/".to_owned().concat(list[i].as_str()));
        i += 1;
    }
    out.push("**/requirements*.txt".to_owned());
    proof {
        assert(out.deep_view() =~= globs_of());
    }
    out
}

/// Every file a parser reads is watched, or editing it would change nothing.
pub proof fn every_parsed_manifest_is_watched(name: Seq<char>)
    requires
        format_of(name) is Some,
    ensures
        is_watched_name(name),
{
    let w = watched_names();
    assert(w[0] == "package.json"@);
    assert(w[1] == "package-lock.json"@);
    assert(w[2] == "npm-shrinkwrap.json"@);
    assert(w[6] == "go.mod"@);
    assert(w[11] == "Cargo.toml"@);
    assert(w[12] == "Cargo.lock"@);
}

// ---- URIs ----

/// The value of a hexadecimal digit.
pub open spec fn hex_value(b: u8) -> Option<int> {
    if 48 <= b <= 57 {
        Some(b - 48)
    } else if 65 <= b <= 70 {
        Some(b - 55)
    } else if 97 <= b <= 102 {
        Some(b - 87)
    } else {
        None
    }
}

/// The byte that two hexadecimal digits spell.
pub open spec fn escaped(a: u8, b: u8) -> Option<u8> {
    match (hex_value(a), hex_value(b)) {
        (Some(x), Some(y)) => Some((16 * x + y) as u8),
        _ => None,
    }
}

/// Bytes with their percent-escapes undone. What looks like an escape and is
/// none stays as it is.
pub open spec fn unescaped(b: Seq<u8>) -> Seq<u8>
    decreases b.len(),
{
    if b.len() == 0 {
        seq![]
    } else if b[0] == 37 && b.len() >= 3 && escaped(b[1], b[2]) is Some {
        seq![escaped(b[1], b[2])->Some_0] + unescaped(b.skip(3))
    } else {
        seq![b[0]] + unescaped(b.skip(1))
    }
}

/// What `String::from_utf8_lossy` makes of some bytes.
pub uninterp spec fn lossy_text(bytes: Seq<u8>) -> Seq<char>;

/// `String::from_utf8_lossy`: bytes as text, which is the text they encode
/// where they are valid UTF-8. What stands for invalid bytes is not said.
#[verifier::external_body]
fn lossy(bytes: &Vec<u8>) -> (r: String)
    ensures
        r@ == lossy_text(bytes@),
        valid_utf8(bytes@) ==> r@ == decode_utf8(bytes@),
{
    String::from_utf8_lossy(bytes).into_owned()
}

fn hex_digit(b: u8) -> (r: Option<u8>)
    ensures
        match r {
            Some(v) => hex_value(b) == Some(v as int) && v < 16,
            None => hex_value(b) is None,
        },
{
    if 48 <= b && b <= 57 {
        Some(b - 48)
    } else if 65 <= b && b <= 70 {
        Some(b - 55)
    } else if 97 <= b && b <= 102 {
        Some(b - 87)
    } else {
        None
    }
}

fn escape(a: u8, b: u8) -> (r: Option<u8>)
    ensures
        r == escaped(a, b),
{
    match (hex_digit(a), hex_digit(b)) {
        (Some(x), Some(y)) => Some(16 * x + y),
        _ => None,
    }
}

/// Bytes with their percent-escapes undone.
pub fn unescape(bytes: &[u8]) -> (r: Vec<u8>)
    ensures
        r@ == unescaped(bytes@),
{
    let mut out: Vec<u8> = Vec::new();
    let len: usize = bytes.len();
    let mut i: usize = 0;
    proof {
        assert(bytes@.skip(0) =~= bytes@);
        assert(out@ + unescaped(bytes@) =~= unescaped(bytes@));
    }
    while i < len
        invariant
            i <= len,
            len == bytes@.len(),
            out@ + unescaped(bytes@.skip(i as int)) == unescaped(bytes@),
        decreases len - i,
    {
        let ghost rest = bytes@.skip(i as int);
        let ghost so_far = out@;
        let found = if bytes[i] == 37 && len - i >= 3 {
            escape(bytes[i + 1], bytes[i + 2])
        } else {
            None
        };
        proof {
            assert(rest[0] == bytes@[i as int]);
            if len - i >= 3 {
                assert(rest[1] == bytes@[i + 1] && rest[2] == bytes@[i + 2]);
            }
        }
        match found {
            Some(b) => {
                out.push(b);
                proof {
                    assert(rest.skip(3) =~= bytes@.skip(i + 3));
                    assert(so_far + (seq![b] + unescaped(rest.skip(3))) =~= out@ + unescaped(
                        rest.skip(3),
                    ));
                }
                i += 3;
            },
            None => {
                out.push(bytes[i]);
                proof {
                    assert(rest.skip(1) =~= bytes@.skip(i + 1));
                    assert(so_far + (seq![rest[0]] + unescaped(rest.skip(1))) =~= out@ + unescaped(
                        rest.skip(1),
                    ));
                }
                i += 1;
            },
        }
    }
    proof {
        assert(out@ + unescaped(bytes@.skip(i as int)) =~= out@);
    }
    out
}

/// Text with its percent-escapes undone.
pub open spec fn decoded(s: Seq<char>) -> Seq<char> {
    lossy_text(unescaped(encode_utf8(s)))
}

pub fn percent_decode(s: &str) -> (r: String)
    ensures
        r@ == decoded(s@),
        valid_utf8(unescaped(encode_utf8(s@))) ==> r@ == decode_utf8(unescaped(encode_utf8(s@))),
{
    let bytes = unescape(s.as_bytes());
    lossy(&bytes)
}

/// Text without escapes is left as it is.
pub proof fn text_without_escapes_is_unchanged(b: Seq<u8>)
    requires
        forall|i: int| 0 <= i < b.len() ==> #[trigger] b[i] != 37,
    ensures
        unescaped(b) == b,
    decreases b.len(),
{
    if b.len() > 0 {
        let rest = b.skip(1);
        assert forall|i: int| 0 <= i < rest.len() implies #[trigger] rest[i] != 37 by {
            assert(rest[i] == b[i + 1]);
        }
        assert(b[0] != 37);
        text_without_escapes_is_unchanged(rest);
        assert(unescaped(b) =~= b);
    } else {
        assert(unescaped(b) =~= b);
    }
}

/// What a `file:` URI says before its escapes are undone. On Windows a URI
/// carries a slash before the drive letter.
pub open spec fn file_part(uri: Seq<char>, windows: bool) -> Option<Seq<char>> {
    if "file://"@.is_prefix_of(uri) {
        let rest = uri.skip(7);
        if windows && rest.len() > 2 && rest[0] == '/' && rest[2] == ':' && rest[1] as u32 <= 0x7f {
            Some(rest.skip(1))
        } else {
            Some(rest)
        }
    } else {
        None
    }
}

/// A `file:` URI as a path; a URI naming anything else is not something that
/// can be scanned.
pub fn uri_to_path(uri: &str, windows: bool) -> (r: Option<String>)
    ensures
        r.deep_view() == (match file_part(uri@, windows) {
            Some(part) => Some(decoded(part)),
            None => None,
        }),
        file_part(uri@, windows) matches Some(part) ==> (valid_utf8(unescaped(encode_utf8(part)))
            ==> r->Some_0@ == decode_utf8(unescaped(encode_utf8(part)))),
{
    if !begins(uri, "file://") {
        return None;
    }
    proof {
        reveal_strlit("file://");
    }
    let all = chars(uri);
    let rest = crate::text::part(all.as_slice(), 7, all.len());
    proof {
        assert(rest@ =~= uri@.skip(7));
    }
    let skip: usize = if windows && rest.len() > 2 && rest[0] == '/' && rest[2] == ':' && rest[1] as u32
        <= 0x7f {
        1
    } else {
        0
    };
    let text = string(crate::text::part(rest, skip, rest.len()));
    proof {
        if skip == 1 {
            assert(text@ =~= rest@.skip(1));
        } else {
            assert(text@ =~= rest@);
        }
    }
    Some(percent_decode(text.as_str()))
}

/// A path without escapes is read back from its URI.
pub proof fn a_path_is_read_back_from_its_uri(path: Seq<char>)
    requires
        forall|i: int| 0 <= i < encode_utf8(path).len() ==> #[trigger] encode_utf8(path)[i] != 37,
    ensures
        file_part(uri_of(path), false) == Some(path),
        valid_utf8(unescaped(encode_utf8(path))),
        decode_utf8(unescaped(encode_utf8(path))) == path,
{
    reveal_strlit("file://");
    assert("file://"@.is_prefix_of(uri_of(path)));
    assert(uri_of(path).skip(7) =~= path);
    text_without_escapes_is_unchanged(encode_utf8(path));
    vstd::utf8::encode_utf8_valid_utf8(path);
    vstd::utf8::encode_utf8_decode_utf8(path);
}

/// The workspace to scan: the first workspace folder, or the deprecated root
/// from a client that still sends only that.
pub fn workspace_root(folders: &Option<Vec<String>>, root: &Option<String>, windows: bool) -> (r: Option<
    String,
>)
    ensures
        ({
            let chosen = match folders.deep_view() {
                Some(list) => if list.len() > 0 { Some(list[0]) } else { root.deep_view() },
                None => root.deep_view(),
            };
            r.deep_view() == (match chosen {
                Some(uri) => match file_part(uri, windows) {
                    Some(part) => Some(decoded(part)),
                    None => None,
                },
                None => None,
            })
        }),
{
    if let Some(list) = folders {
        if list.len() > 0 {
            proof {
                assert(folders.deep_view()->Some_0[0] == list@[0]@);
            }
            return uri_to_path(list[0].as_str(), windows);
        }
    }
    match root {
        Some(uri) => uri_to_path(uri.as_str(), windows),
        None => None,
    }
}

/// How columns are counted: in bytes where the client offers to, since that is
/// how they come; else in UTF-16, the only encoding a client is obliged to
/// support.
pub fn negotiate_encoding(offered: &Option<Vec<String>>) -> (r: Encoding)
    ensures
        r == (match offered.deep_view() {
            Some(list) => if list.contains("utf-8"@) { Encoding::Utf8 } else { Encoding::Utf16 },
            None => Encoding::Utf16,
        }),
{
    match offered {
        Some(list) => {
            if contains(list, "utf-8") {
                Encoding::Utf8
            } else {
                Encoding::Utf16
            }
        },
        None => Encoding::Utf16,
    }
}

// ---- open documents ----

/// An open manifest as the editor has it.
#[derive(Clone, Debug)]
pub struct Document {
    pub path: String,
    pub version: i32,
    pub text: String,
}

/// The open manifests.
///
/// Scanning still reads from disk; this exists only so that a code action
/// edits the buffer the user is looking at. A span computed from disk against
/// a buffer with unsaved edits would rewrite the wrong bytes.
pub struct Documents {
    pub open: Vec<Document>,
}

pub open spec fn documents_map(v: Seq<Document>) -> Map<Seq<char>, (i32, Seq<char>)>
    decreases v.len(),
{
    if v.len() == 0 {
        Map::empty()
    } else {
        documents_map(v.drop_last()).insert(v.last().path@, (v.last().version, v.last().text@))
    }
}

impl View for Documents {
    type V = Map<Seq<char>, (i32, Seq<char>)>;

    open spec fn view(&self) -> Map<Seq<char>, (i32, Seq<char>)> {
        documents_map(self.open@)
    }
}

/// What is open once a document's text was reported. Only what some parser
/// reads is kept, and nothing over the read cap: forgetting it falls back to
/// the disk, which applies the same cap.
pub open spec fn with_text(
    open: Map<Seq<char>, (i32, Seq<char>)>,
    path: Seq<char>,
    version: i32,
    text: Seq<char>,
) -> Map<Seq<char>, (i32, Seq<char>)> {
    if format_of(name_of(path)) is None {
        open
    } else if utf8_len(text) > MAX_MANIFEST_BYTES {
        open.remove(normal_of(path))
    } else {
        open.insert(normal_of(path), (version, text))
    }
}

impl Documents {
    pub fn new() -> (r: Documents)
        ensures
            r@ == Map::<Seq<char>, (i32, Seq<char>)>::empty(),
    {
        Documents { open: Vec::new() }
    }

    /// Forgets a document.
    pub fn close(&mut self, path: &str)
        ensures
            final(self)@ == old(self)@.remove(normal_of(path@)),
    {
        let path = normal(path);
        let ghost before = self.open@;
        let mut kept: Vec<Document> = Vec::new();
        let mut i: usize = 0;
        proof {
            assert(documents_map(kept@) =~= documents_map(before.take(0)).remove(path@));
        }
        while i < self.open.len()
            invariant
                i <= self.open@.len(),
                self.open@ == before,
                documents_map(kept@) == documents_map(before.take(i as int)).remove(path@),
            decreases self.open@.len() - i,
        {
            let ghost so_far = kept@;
            proof {
                assert(before.take(i + 1).drop_last() =~= before.take(i as int));
            }
            if !same(self.open[i].path.as_str(), path.as_str()) {
                kept.push(
                    Document {
                        path: self.open[i].path.clone(),
                        version: self.open[i].version,
                        text: self.open[i].text.clone(),
                    },
                );
                proof {
                    assert(kept@.drop_last() =~= so_far);
                }
            }
            proof {
                assert(documents_map(kept@) =~= documents_map(before.take(i + 1)).remove(path@));
            }
            i += 1;
        }
        proof {
            assert(before.take(i as int) =~= before);
        }
        self.open = kept;
    }

    /// Records an open manifest's text, ignoring anything over the read cap.
    pub fn track(&mut self, path: &str, version: i32, text: String)
        ensures
            final(self)@ == with_text(old(self)@, path@, version, text@),
    {
        let name = file_name(path);
        if !is_manifest_name(name.as_str()) {
            return ;
        }
        let ghost start = self@;
        self.close(path);
        let len: usize = text.as_str().as_bytes().len();
        if len as u64 > MAX_MANIFEST_BYTES {
            return ;
        }
        let ghost before = self.open@;
        let path = normal(path);
        self.open.push(Document { path, version, text });
        proof {
            assert(self.open@.drop_last() =~= before);
            assert(self@ =~= start.insert(path@, (version, text@)));
        }
    }

    /// An open manifest's version and text.
    pub fn get(&self, path: &str) -> (r: Option<(i32, String)>)
        ensures
            match r {
                Some(d) => self@.dom().contains(normal_of(path@)) && self@[normal_of(path@)] == (
                    d.0,
                    d.1@,
                ),
                None => !self@.dom().contains(normal_of(path@)),
            },
    {
        let path = normal(path);
        let mut found: Option<usize> = None;
        let mut i: usize = 0;
        while i < self.open.len()
            invariant
                i <= self.open@.len(),
                match found {
                    Some(k) => k < self.open@.len() && documents_map(
                        self.open@.take(i as int),
                    ).dom().contains(path@) && documents_map(self.open@.take(i as int))[path@] == (
                        self.open@[k as int].version,
                        self.open@[k as int].text@,
                    ),
                    None => !documents_map(self.open@.take(i as int)).dom().contains(path@),
                },
            decreases self.open@.len() - i,
        {
            proof {
                assert(self.open@.take(i + 1).drop_last() =~= self.open@.take(i as int));
            }
            if same(self.open[i].path.as_str(), path.as_str()) {
                found = Some(i);
            }
            i += 1;
        }
        proof {
            assert(self.open@.take(i as int) =~= self.open@);
        }
        match found {
            Some(k) => Some((self.open[k].version, self.open[k].text.clone())),
            None => None,
        }
    }
}

/// What was last reported of a document is what it has, until it is closed.
pub proof fn a_document_has_its_last_text(
    open: Map<Seq<char>, (i32, Seq<char>)>,
    path: Seq<char>,
    version: i32,
    text: Seq<char>,
)
    requires
        format_of(name_of(path)) is Some,
        utf8_len(text) <= MAX_MANIFEST_BYTES,
    ensures
        with_text(open, path, version, text).dom().contains(normal_of(path)),
        with_text(open, path, version, text)[normal_of(path)] == (version, text),
        !with_text(open, path, version, text).remove(normal_of(path)).dom().contains(
            normal_of(path),
        ),
{
}

} // verus!
