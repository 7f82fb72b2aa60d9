//! `Cargo.toml` and `Cargo.lock`.
use crate::manifest::{
    first_of_each, first_per_name, lowest_of, lowest_satisfying, seen, sighting, span,
};
use crate::model::{Ecosystem, ExtractedPackage, ExtractedView, DEV_GROUP};
use crate::span::{range_of, LineIndex};
use crate::text::{
    byte_len, chars, clamp, count_leading, count_trailing, find_at, find_class, find_from, first_of,
    is, leading, lemma_leading_is, lemma_trailing_is, lines, lines_of, part, split, split_of,
    starts_with, string, trailing, trim, trim_end, trim_end_of, trim_of, trim_start, trim_start_of,
    utf8_len, Class,
};
use vstd::prelude::*;
use vstd::utf8::encode_utf8;

verus! {

/// Dependency tables, in the order a crate is attributed to them when it
/// appears in more than one.
pub open spec fn section_name(i: int) -> Seq<char> {
    if i == 0 {
        "dependencies"@
    } else if i == 1 {
        "build-dependencies"@
    } else {
        "dev-dependencies"@
    }
}

/// The dependency group a table stands for; what ships has none.
pub open spec fn section_groups(i: int) -> Seq<Seq<char>> {
    if i == 0 {
        seq![]
    } else if i == 1 {
        seq!["build"@]
    } else {
        seq![DEV_GROUP@]
    }
}

/// The dependency table a header names, by its last dotted component, so that
/// `[target.'cfg(unix)'.dependencies]` is one. A sub-table like
/// `[dependencies.serde]` is not.
pub open spec fn section_of(header: Seq<char>) -> Option<int> {
    let pieces = split_of(trim_of(header, Class::Bracket), Class::One('.'));
    let name = trim_of(pieces.last(), Class::Space);
    if name == section_name(0) {
        Some(0)
    } else if name == section_name(1) {
        Some(1)
    } else if name == section_name(2) {
        Some(2)
    } else {
        None
    }
}

/// Where a comment starts: the first `#` outside any quotes.
pub open spec fn comment_from(line: Seq<char>, i: nat, quote: Option<char>) -> Option<nat>
    decreases line.len() - i,
{
    if i >= line.len() {
        None
    } else {
        let c = line[i as int];
        match quote {
            Some(open) => comment_from(line, i + 1, if c == open { None } else { Some(open) }),
            None => if c == '"' || c == '\'' {
                comment_from(line, i + 1, Some(c))
            } else if c == '#' {
                Some(i)
            } else {
                comment_from(line, i + 1, None)
            },
        }
    }
}

/// A line without its comment, or without its line end where it has none.
pub open spec fn uncommented(line: Seq<char>) -> Seq<char> {
    match comment_from(line, 0, None) {
        Some(i) => line.take(i as int),
        None => trim_end_of(line, Class::LineEnd),
    }
}

/// The contents of the first quoted string, as where they start and end.
pub open spec fn quoted_of(s: Seq<char>) -> Option<(nat, nat)> {
    match first_of(s, Class::Quote) {
        None => None,
        Some(open) => match first_of(s.skip(open as int + 1), Class::One(s[open as int])) {
            None => None,
            Some(close) => Some((open + 1, open + 1 + close)),
        },
    }
}

/// The quoted value of `key = "..."` inside an inline table, searched for from
/// an index on.
pub open spec fn quoted_after_from(s: Seq<char>, key: Seq<char>, from: nat) -> Option<(nat, nat)>
    decreases s.len() - from,
{
    match find_from(s, key, from) {
        None => None,
        Some(i) => if i < from || i + key.len() > s.len() || i >= s.len() {
            None
        } else {
            let rest = trim_start_of(s.skip((i + key.len()) as int), Class::Space);
            if rest.len() > 0 && rest[0] == '=' {
                let base = (s.len() - rest.len() + 1) as nat;
                match quoted_of(rest.skip(1)) {
                    None => None,
                    Some((a, b)) => Some((base + a, base + b)),
                }
            } else {
                quoted_after_from(s, key, i + 1)
            }
        },
    }
}

pub open spec fn quoted_after_of(s: Seq<char>, key: Seq<char>) -> Option<(nat, nat)> {
    quoted_after_from(s, key, 0)
}

/// A dependency line: the crate, and where in the line its key and its version
/// are written.
pub struct DependencyView {
    pub name: Seq<char>,
    pub key: (nat, nat),
    pub version: (nat, nat),
}

/// Where the version of a dependency is written in its value: behind
/// `version =`, else the value itself where it is no table. A table without a
/// version declares a path or git dependency, which has none to look up.
pub open spec fn version_place(value: Seq<char>) -> Option<(nat, nat)> {
    match quoted_after_of(value, "version"@) {
        Some(at) => Some(at),
        None => if first_of(value, Class::One('{')) is Some {
            None
        } else {
            quoted_of(value)
        },
    }
}

/// One `crate = ...` line.
///
/// A renamed dependency is keyed by the crate actually depended on, since that
/// is what an advisory names.
pub open spec fn dependency_of(line: Seq<char>) -> Option<DependencyView> {
    match first_of(line, Class::One('=')) {
        None => None,
        Some(eq) => {
            let key = line.take(eq as int);
            let start = leading(key, Class::Space);
            let end = key.len() - trailing(key, Class::Space);
            let value = line.skip(eq as int + 1);
            if end <= start {
                None
            } else {
                let bare = trim_of(line.subrange(start as int, end), Class::Quote);
                if bare.len() == 0 || first_of(bare, Class::NotKey) is Some {
                    None
                } else {
                    match version_place(value) {
                        None => None,
                        Some((a, b)) => if a >= b {
                            None
                        } else {
                            Some(
                                DependencyView {
                                    name: match quoted_after_of(value, "package"@) {
                                        Some((c, d)) => value.subrange(c as int, d as int),
                                        None => bare,
                                    },
                                    key: (start, end as nat),
                                    version: (eq + 1 + a, eq + 1 + b),
                                },
                            )
                        },
                    }
                }
            }
        },
    }
}

/// A dependency line as a sighting, at the lowest version that its requirement
/// admits. A requirement that names none, such as `*`, stands for itself.
pub open spec fn declared_of(
    bytes: Seq<u8>,
    path: Seq<char>,
    line: Seq<char>,
    start: int,
    section: int,
) -> Option<ExtractedView> {
    match dependency_of(line) {
        None => None,
        Some(d) => {
            let version = line.subrange(d.version.0 as int, d.version.1 as int);
            let at = start + utf8_len(line.take(d.version.0 as int));
            Some(
                ExtractedView {
                    version_span: match lowest_of(version) {
                        Some(l) => Some(range_of(bytes, clamp(at + l.start), clamp(at + l.end))),
                        None => None,
                    },
                    ..seen(
                        Ecosystem::CratesIo,
                        d.name,
                        match lowest_of(version) {
                            Some(l) => l.version,
                            None => version,
                        },
                        path,
                        range_of(
                            bytes,
                            clamp(start + utf8_len(line.take(d.key.0 as int))),
                            clamp(start + utf8_len(line.take(d.key.1 as int))),
                        ),
                        section_groups(section),
                        true,
                    )
                },
            )
        },
    }
}

/// How far a `Cargo.toml` has been read.
pub struct TomlScan {
    pub offset: nat,
    pub section: Option<int>,
    /// What each dependency table declares.
    pub shipped: Seq<ExtractedView>,
    pub build: Seq<ExtractedView>,
    pub dev: Seq<ExtractedView>,
}

pub open spec fn and_one<A>(list: Seq<A>, more: Option<A>) -> Seq<A> {
    match more {
        Some(x) => list.push(x),
        None => list,
    }
}

pub open spec fn toml_step(
    bytes: Seq<u8>,
    path: Seq<char>,
    s: TomlScan,
    raw: Seq<char>,
) -> TomlScan {
    let line = uncommented(raw);
    let trimmed = trim_of(line, Class::Space);
    let next = if trimmed.len() > 0 && trimmed[0] == '[' {
        TomlScan { section: section_of(trimmed), ..s }
    } else {
        match s.section {
            None => s,
            Some(i) => {
                let found = declared_of(bytes, path, line, s.offset as int, i);
                if i == 0 {
                    TomlScan { shipped: and_one(s.shipped, found), ..s }
                } else if i == 1 {
                    TomlScan { build: and_one(s.build, found), ..s }
                } else {
                    TomlScan { dev: and_one(s.dev, found), ..s }
                }
            },
        }
    };
    TomlScan { offset: s.offset + utf8_len(raw), ..next }
}

pub open spec fn toml_scan(bytes: Seq<u8>, path: Seq<char>, file: Seq<Seq<char>>) -> TomlScan
    decreases file.len(),
{
    if file.len() == 0 {
        TomlScan { offset: 0, section: None, shipped: seq![], build: seq![], dev: seq![] }
    } else {
        toml_step(bytes, path, toml_scan(bytes, path, file.drop_last()), file.last())
    }
}

/// What a `Cargo.toml` declares: each crate once, from the first of its tables
/// in preference order, however the file is ordered.
pub open spec fn cargo_toml_of(src: Seq<char>, path: Seq<char>) -> Seq<ExtractedView> {
    let s = toml_scan(encode_utf8(src), path, lines_of(src));
    first_of_each(s.shipped + s.build + s.dev)
}

/// The value of `key = ...` at the start of a trimmed line.
pub open spec fn value_of(trimmed: Seq<char>, key: Seq<char>) -> Option<Seq<char>> {
    let rest = trim_start_of(trimmed.skip(key.len() as int), Class::Space);
    if key.is_prefix_of(trimmed) && rest.len() > 0 && rest[0] == '=' {
        Some(rest.skip(1))
    } else {
        None
    }
}

/// The quoted text in a value.
pub open spec fn quoted_text(value: Option<Seq<char>>) -> Option<Seq<char>> {
    match value {
        Some(v) => match quoted_of(v) {
            Some((a, b)) => Some(v.subrange(a as int, b as int)),
            None => None,
        },
        None => None,
    }
}

/// The first `name` inside a `[package]` table.
pub open spec fn own_name(file: Seq<Seq<char>>, in_package: bool) -> Option<Seq<char>>
    decreases file.len(),
{
    if file.len() == 0 {
        None
    } else {
        let trimmed = trim_of(uncommented(file[0]), Class::Space);
        if trimmed.len() > 0 && trimmed[0] == '[' {
            own_name(
                file.skip(1),
                trim_of(trim_of(trimmed, Class::Bracket), Class::Space) == "package"@,
            )
        } else if in_package && quoted_text(value_of(trimmed, "name"@)) is Some {
            quoted_text(value_of(trimmed, "name"@))
        } else {
            own_name(file.skip(1), in_package)
        }
    }
}

/// How far a `Cargo.lock` has been read.
pub struct LockScan {
    pub offset: nat,
    /// The name of the record that is open, and where it starts and ends.
    pub name: Option<(Seq<char>, int, int)>,
    pub version: Option<Seq<char>>,
    pub found: Seq<ExtractedView>,
}

/// The record that is open, emitted if it is complete, and none open.
pub open spec fn lock_flush(bytes: Seq<u8>, path: Seq<char>, s: LockScan) -> LockScan {
    let found = match (s.name, s.version) {
        (Some((name, a, b)), Some(version)) => s.found.push(
            seen(
                Ecosystem::CratesIo,
                name,
                version,
                path,
                range_of(bytes, clamp(a), clamp(b)),
                seq![],
                false,
            ),
        ),
        _ => s.found,
    };
    LockScan { offset: s.offset, name: None, version: None, found }
}

/// Where a value that ends a trimmed line begins, in characters from the start
/// of the line.
pub open spec fn value_at(line: Seq<char>, value: Seq<char>) -> int {
    leading(line, Class::Space) + trim_of(line, Class::Space).len() - value.len()
}

pub open spec fn lock_step(
    bytes: Seq<u8>,
    path: Seq<char>,
    s: LockScan,
    raw: Seq<char>,
) -> LockScan {
    let line = uncommented(raw);
    let trimmed = trim_of(line, Class::Space);
    let name = value_of(trimmed, "name"@);
    let next = if "[["@.is_prefix_of(trimmed) {
        lock_flush(bytes, path, s)
    } else if quoted_text(name) is Some {
        let value = name->Some_0;
        let (a, b) = quoted_of(value)->Some_0;
        let at = s.offset as int + utf8_len(line.take(value_at(line, value)));
        LockScan {
            name: Some(
                (
                    value.subrange(a as int, b as int),
                    at + utf8_len(value.take(a as int)),
                    at + utf8_len(value.take(b as int)),
                ),
            ),
            ..s
        }
    } else if quoted_text(value_of(trimmed, "version"@)) is Some {
        LockScan { version: quoted_text(value_of(trimmed, "version"@)), ..s }
    } else {
        s
    };
    LockScan { offset: s.offset + utf8_len(raw), ..next }
}

pub open spec fn lock_scan(bytes: Seq<u8>, path: Seq<char>, file: Seq<Seq<char>>) -> LockScan
    decreases file.len(),
{
    if file.len() == 0 {
        LockScan { offset: 0, name: None, version: None, found: seq![] }
    } else {
        lock_step(bytes, path, lock_scan(bytes, path, file.drop_last()), file.last())
    }
}

/// The locked crates: one for each `[[package]]` that has a name and a version.
pub open spec fn cargo_lock_of(src: Seq<char>, path: Seq<char>) -> Seq<ExtractedView> {
    let bytes = encode_utf8(src);
    lock_flush(bytes, path, lock_scan(bytes, path, lines_of(src))).found
}

// ---- code ----

fn section(header: &[char]) -> (r: Option<usize>)
    ensures
        match r {
            Some(i) => section_of(header@) == Some(i as int) && i < 3,
            None => section_of(header@) is None,
        },
{
    let pieces = split(trim(header, Class::Bracket), Class::One('.'));
    proof {
        crate::text::lemma_split_nonempty(trim_of(header@, Class::Bracket), Class::One('.'));
        assert(pieces.deep_view().len() == pieces@.len());
        assert(pieces.deep_view().last() == pieces@.last()@);
    }
    let last = chars(pieces[pieces.len() - 1].as_str());
    let name = trim(last.as_slice(), Class::Space);
    if is(name, "dependencies") {
        Some(0)
    } else if is(name, "build-dependencies") {
        Some(1)
    } else if is(name, "dev-dependencies") {
        Some(2)
    } else {
        None
    }
}

fn groups(i: usize) -> (r: Vec<String>)
    ensures
        r.deep_view() == section_groups(i as int),
{
    let mut out: Vec<String> = Vec::new();
    if i == 1 {
        out.push("build".to_owned());
    } else if i != 0 {
        out.push(DEV_GROUP.to_owned());
    }
    proof {
        assert(out.deep_view() =~= section_groups(i as int));
    }
    out
}

/// Drops a trailing TOML comment, leaving one inside a string alone.
fn trim_comment(line: &[char]) -> (r: &[char])
    ensures
        r@ == uncommented(line@),
{
    let mut quote: Option<char> = None;
    let mut i: usize = 0;
    while i < line.len()
        invariant
            i <= line@.len(),
            comment_from(line@, 0, None) == comment_from(line@, i as nat, quote),
        decreases line@.len() - i,
    {
        let c: char = line[i];
        match quote {
            Some(open) => {
                if c == open {
                    quote = None;
                }
            },
            None => {
                if c == '"' || c == '\'' {
                    quote = Some(c);
                } else if c == '#' {
                    proof {
                        assert(line@.subrange(0, i as int) =~= line@.take(i as int));
                    }
                    return part(line, 0, i);
                }
            },
        }
        i += 1;
    }
    trim_end(line, Class::LineEnd)
}

fn first_quoted(s: &[char]) -> (r: Option<(usize, usize)>)
    ensures
        match r {
            Some(p) => quoted_of(s@) == Some((p.0 as nat, p.1 as nat)) && p.0 <= p.1 <= s@.len(),
            None => quoted_of(s@) is None,
        },
{
    let len: usize = s.len();
    let open: usize = match find_class(s, Class::Quote) {
        Some(i) => i,
        None => return None,
    };
    let rest = part(s, open + 1, len);
    proof {
        assert(rest@ =~= s@.skip(open + 1));
    }
    match find_class(rest, Class::One(s[open])) {
        Some(close) => Some((open + 1, open + 1 + close)),
        None => None,
    }
}

fn quoted_after(s: &[char], key: &str) -> (r: Option<(usize, usize)>)
    ensures
        match r {
            Some(p) => quoted_after_of(s@, key@) == Some((p.0 as nat, p.1 as nat)) && p.0 <= p.1
                <= s@.len(),
            None => quoted_after_of(s@, key@) is None,
        },
{
    let needle = chars(key);
    let len: usize = s.len();
    let mut at: usize = 0;
    loop
        invariant
            at <= s@.len(),
            len == s@.len(),
            needle@ == key@,
            quoted_after_of(s@, key@) == quoted_after_from(s@, key@, at as nat),
        decreases s@.len() - at,
    {
        let i: usize = match find_at(s, needle.as_slice(), at) {
            Some(i) => i,
            None => return None,
        };
        if i >= len {
            return None;
        }
        let tail = part(s, i + needle.len(), len);
        let rest = trim_start(tail, Class::Space);
        proof {
            assert(tail@ =~= s@.skip((i + needle@.len()) as int));
            lemma_leading_is(tail@, Class::Space);
        }
        if rest.len() > 0 && rest[0] == '=' {
            let value = part(rest, 1, rest.len());
            let base: usize = len - rest.len() + 1;
            proof {
                assert(value@ =~= rest@.skip(1));
            }
            return match first_quoted(value) {
                Some((a, b)) => Some((base + a, base + b)),
                None => None,
            };
        }
        at = i + 1;
    }
}

/// One dependency line.
struct Dependency {
    name: String,
    key: (usize, usize),
    version: (usize, usize),
}

fn place_of_version(value: &[char]) -> (r: Option<(usize, usize)>)
    ensures
        match r {
            Some(p) => version_place(value@) == Some((p.0 as nat, p.1 as nat)) && p.0 <= p.1
                <= value@.len(),
            None => version_place(value@) is None,
        },
{
    match quoted_after(value, "version") {
        Some(at) => Some(at),
        None => {
            if find_class(value, Class::One('{')).is_some() {
                None
            } else {
                first_quoted(value)
            }
        },
    }
}

fn dependency(line: &[char]) -> (r: Option<Dependency>)
    ensures
        match r {
            Some(d) => dependency_of(line@) == Some(
                DependencyView {
                    name: d.name@,
                    key: (d.key.0 as nat, d.key.1 as nat),
                    version: (d.version.0 as nat, d.version.1 as nat),
                },
            ) && d.key.0 <= d.key.1 <= line@.len() && d.version.0 <= d.version.1 <= line@.len(),
            None => dependency_of(line@) is None,
        },
{
    let len: usize = line.len();
    let eq: usize = match find_class(line, Class::One('=')) {
        Some(i) => i,
        None => return None,
    };
    let key = part(line, 0, eq);
    let start: usize = count_leading(key, Class::Space);
    let end: usize = key.len() - count_trailing(key, Class::Space);
    let value = part(line, eq + 1, len);
    proof {
        assert(key@ =~= line@.take(eq as int));
        assert(value@ =~= line@.skip(eq + 1));
    }
    if end <= start {
        return None;
    }
    let bare = trim(part(line, start, end), Class::Quote);
    if bare.len() == 0 || find_class(bare, Class::NotKey).is_some() {
        return None;
    }
    let (a, b) = match place_of_version(value) {
        Some(p) => p,
        None => return None,
    };
    if a >= b {
        return None;
    }
    let name = match quoted_after(value, "package") {
        Some((c, d)) => string(part(value, c, d)),
        None => string(bare),
    };
    Some(Dependency { name, key: (start, end), version: (eq + 1 + a, eq + 1 + b) })
}

fn declared(
    line: &[char],
    start: usize,
    path: &str,
    lines: &LineIndex,
    table: usize,
    Ghost(at): Ghost<int>,
) -> (r: Option<ExtractedPackage>)
    requires
        lines.wf(),
        at >= 0,
        start == clamp(at),
    ensures
        r.deep_view() == declared_of(lines.bytes@, path@, line@, at, table as int),
{
    let d = match dependency(line) {
        Some(d) => d,
        None => return None,
    };
    let version = part(line, d.version.0, d.version.1);
    proof {
        assert(line@.subrange(0, d.version.0 as int) =~= line@.take(d.version.0 as int));
        assert(line@.subrange(0, d.key.0 as int) =~= line@.take(d.key.0 as int));
        assert(line@.subrange(0, d.key.1 as int) =~= line@.take(d.key.1 as int));
    }
    let version_at: usize = start.saturating_add(byte_len(part(line, 0, d.version.0)));
    // A Cargo version is a requirement string, so the span is narrowed to the
    // version in it: `">=1.0, <2.0"` keeps its upper bound when the lower one
    // is bumped.
    let (version_text, version_span) = match lowest_satisfying(version) {
        Some(l) => (
            string(l.0.as_slice()),
            Some(lines.range(version_at.saturating_add(l.1), version_at.saturating_add(l.2))),
        ),
        None => (string(version), None),
    };
    let name_span = lines.range(
        start.saturating_add(byte_len(part(line, 0, d.key.0))),
        start.saturating_add(byte_len(part(line, 0, d.key.1))),
    );
    Some(
        sighting(
            Ecosystem::CratesIo,
            d.name.as_str(),
            version_text.as_str(),
            path,
            name_span,
            groups(table),
            // Cargo versions are constraints: `"0.1.44"` means `^0.1.44`. What
            // is installed comes from the lockfile, never from here.
            true,
        ).with_version_span(version_span),
    )
}

fn push_found(list: &mut Vec<ExtractedPackage>, more: Option<ExtractedPackage>)
    ensures
        final(list).deep_view() == and_one(old(list).deep_view(), more.deep_view()),
{
    let ghost before = list.deep_view();
    if let Some(x) = more {
        list.push(x);
        proof {
            assert(list.deep_view() =~= before.push(x.deep_view()));
        }
    }
}

/// Dependencies declared in a `Cargo.toml`.
///
/// Line-based rather than parsed: a TOML decoder hands back values without
/// telling where they were written, and the position is the point. Only the
/// shapes that carry a version are read.
pub fn cargo_toml(src: &str, path: &str) -> (r: Vec<ExtractedPackage>)
    ensures
        r.deep_view() == cargo_toml_of(src@, path@),
{
    let index = LineIndex::new(src);
    let ghost bytes = encode_utf8(src@);
    let all = chars(src);
    let file = lines(all.as_slice());
    let ghost text = file.deep_view();
    let mut shipped: Vec<ExtractedPackage> = Vec::new();
    let mut build: Vec<ExtractedPackage> = Vec::new();
    let mut dev: Vec<ExtractedPackage> = Vec::new();
    let mut table: Option<usize> = None;
    let mut offset: usize = 0;
    let mut i: usize = 0;
    proof {
        assert(shipped.deep_view() =~= seq![]);
        assert(build.deep_view() =~= seq![]);
        assert(dev.deep_view() =~= seq![]);
    }
    while i < file.len()
        invariant
            i <= file@.len(),
            index.wf(),
            index.bytes@ == bytes,
            text == file.deep_view(),
            ({
                let s = toml_scan(bytes, path@, text.take(i as int));
                &&& offset == clamp(s.offset as int)
                &&& match (table, s.section) {
                    (Some(a), Some(b)) => a == b && a < 3,
                    (None, None) => true,
                    _ => false,
                }
                &&& shipped.deep_view() == s.shipped
                &&& build.deep_view() == s.build
                &&& dev.deep_view() == s.dev
            }),
        decreases file@.len() - i,
    {
        let ghost s = toml_scan(bytes, path@, text.take(i as int));
        proof {
            assert(text.take(i + 1).drop_last() =~= text.take(i as int));
            assert(text.take(i + 1).last() =~= file@[i as int]@);
        }
        let raw = file[i].as_slice();
        let line = trim_comment(raw);
        let trimmed = trim(line, Class::Space);
        if trimmed.len() > 0 && trimmed[0] == '[' {
            table = section(trimmed);
        } else {
            match table {
                Some(t) => {
                    let found = declared(line, offset, path, &index, t, Ghost(s.offset as int));
                    if t == 0 {
                        push_found(&mut shipped, found);
                    } else if t == 1 {
                        push_found(&mut build, found);
                    } else {
                        push_found(&mut dev, found);
                    }
                },
                None => {},
            }
        }
        offset = offset.saturating_add(byte_len(raw));
        i += 1;
    }
    let ghost s = toml_scan(bytes, path@, text);
    proof {
        assert(text.take(i as int) =~= text);
    }
    let ghost (a, b, c) = (shipped@, build@, dev@);
    shipped.append(&mut build);
    shipped.append(&mut dev);
    proof {
        assert(shipped@ == a + b + c);
        assert(shipped.deep_view() =~= s.shipped + s.build + s.dev) by {
            assert forall|k: int| 0 <= k < shipped@.len() implies shipped.deep_view()[k] == (
            s.shipped + s.build + s.dev)[k] by {
                if k < a.len() {
                    assert(shipped@[k] == a[k]);
                    assert(s.shipped[k] == a[k].deep_view());
                } else if k < a.len() + b.len() {
                    assert(shipped@[k] == b[k - a.len()]);
                    assert(s.build[k - a.len()] == b[k - a.len()].deep_view());
                } else {
                    assert(shipped@[k] == c[k - a.len() - b.len()]);
                    assert(s.dev[k - a.len() - b.len()] == c[k - a.len() - b.len()].deep_view());
                }
            }
        }
    }
    first_per_name(shipped)
}

fn value<'a>(trimmed: &'a [char], key: &str) -> (r: Option<&'a [char]>)
    ensures
        match r {
            Some(v) => value_of(trimmed@, key@) == Some(v@) && v@.len() < trimmed@.len() && v@
                == trimmed@.skip(trimmed@.len() - v@.len()),
            None => value_of(trimmed@, key@) is None,
        },
{
    if !starts_with(trimmed, key) {
        return None;
    }
    let n: usize = chars(key).len();
    let tail = part(trimmed, n, trimmed.len());
    let rest = trim_start(tail, Class::Space);
    proof {
        assert(tail@ =~= trimmed@.skip(n as int));
        lemma_leading_is(tail@, Class::Space);
    }
    if rest.len() > 0 && rest[0] == '=' {
        let v = part(rest, 1, rest.len());
        proof {
            assert(v@ =~= rest@.skip(1));
            assert(v@ =~= trimmed@.skip(trimmed@.len() - v@.len()));
        }
        Some(v)
    } else {
        None
    }
}

/// The crate a `Cargo.toml` declares as its own, so that a project is not
/// reported as a dependency of itself.
///
/// A workspace root carries `[workspace]` and no `[package]`, and yields None.
pub fn cargo_self(src: &str) -> (r: Option<String>)
    ensures
        r.deep_view() == own_name(lines_of(src@), false),
{
    let all = chars(src);
    let file = lines(all.as_slice());
    let ghost text = file.deep_view();
    let mut in_package = false;
    let mut i: usize = 0;
    proof {
        assert(text.skip(0) =~= text);
    }
    while i < file.len()
        invariant
            i <= file@.len(),
            text == file.deep_view(),
            text == lines_of(src@),
            own_name(text, false) == own_name(text.skip(i as int), in_package),
        decreases file@.len() - i,
    {
        proof {
            assert(text.skip(i as int)[0] =~= file@[i as int]@);
            assert(text.skip(i as int).skip(1) =~= text.skip(i + 1));
        }
        let line = trim_comment(file[i].as_slice());
        let trimmed = trim(line, Class::Space);
        if trimmed.len() > 0 && trimmed[0] == '[' {
            in_package = is(trim(trim(trimmed, Class::Bracket), Class::Space), "package");
        } else if in_package {
            if let Some(v) = value(trimmed, "name") {
                if let Some((a, b)) = first_quoted(v) {
                    return Some(string(part(v, a, b)));
                }
            }
        }
        i += 1;
    }
    None
}

/// The record that is open while a lockfile is read.
struct Record {
    name: Option<(String, usize, usize)>,
    version: Option<String>,
}

spec fn name_matches(
    code: Option<(String, usize, usize)>,
    model: Option<(Seq<char>, int, int)>,
) -> bool {
    match (code, model) {
        (Some(c), Some(m)) => c.0@ == m.0 && c.1 == clamp(m.1) && c.2 == clamp(m.2),
        (None, None) => true,
        _ => false,
    }
}

fn flush(
    record: &mut Record,
    out: &mut Vec<ExtractedPackage>,
    path: &str,
    lines: &LineIndex,
    Ghost(s): Ghost<LockScan>,
)
    requires
        lines.wf(),
        name_matches(old(record).name, s.name),
        old(record).version.deep_view() == s.version,
        old(out).deep_view() == s.found,
    ensures
        final(record).name is None,
        final(record).version is None,
        final(out).deep_view() == lock_flush(lines.bytes@, path@, s).found,
{
    let name = record.name.take();
    let version = record.version.take();
    if let Some((name, a, b)) = name {
        if let Some(version) = version {
            let none: Vec<String> = Vec::new();
            proof {
                assert(none.deep_view() =~= seq![]);
            }
            let found = sighting(
                Ecosystem::CratesIo,
                name.as_str(),
                version.as_str(),
                path,
                lines.range(a, b),
                none,
                false,
            );
            let ghost before = out.deep_view();
            out.push(found);
            proof {
                assert(out.deep_view() =~= before.push(found.deep_view()));
            }
        }
    }
}

/// Where a value that ends a trimmed line begins, in bytes from the start of
/// the line.
fn value_start(line: &[char], value: &[char]) -> (r: usize)
    requires
        ({
            let trimmed = trim_of(line@, Class::Space);
            value@.len() <= trimmed.len() && value@ == trimmed.skip(trimmed.len() - value@.len())
        }),
    ensures
        r == clamp(utf8_len(line@.take(value_at(line@, value@))) as int),
        0 <= value_at(line@, value@) <= line@.len(),
{
    let lead: usize = count_leading(line, Class::Space);
    let trimmed = trim(line, Class::Space);
    proof {
        lemma_leading_is(line@, Class::Space);
        let body = trim_start_of(line@, Class::Space);
        lemma_trailing_is(body, Class::Space);
    }
    let len: usize = line.len();
    proof {
        assert(lead + trimmed@.len() <= len);
    }
    let start: usize = lead + (trimmed.len() - value.len());
    proof {
        assert(line@.subrange(0, start as int) =~= line@.take(start as int));
    }
    byte_len(part(line, 0, start))
}

/// Locked crate versions from a `Cargo.lock`. No version span: a lockfile is
/// rewritten by its own tool.
pub fn cargo_lock(src: &str, path: &str) -> (r: Vec<ExtractedPackage>)
    ensures
        r.deep_view() == cargo_lock_of(src@, path@),
{
    let index = LineIndex::new(src);
    let ghost bytes = encode_utf8(src@);
    let all = chars(src);
    let file = lines(all.as_slice());
    let ghost text = file.deep_view();
    let mut out: Vec<ExtractedPackage> = Vec::new();
    // Each `[[package]]` opens a record; it is emitted when the next one opens
    // or the file ends, because name and version arrive on separate lines.
    let mut record = Record { name: None, version: None };
    let mut offset: usize = 0;
    let mut i: usize = 0;
    proof {
        assert(out.deep_view() =~= seq![]);
    }
    while i < file.len()
        invariant
            i <= file@.len(),
            index.wf(),
            index.bytes@ == bytes,
            text == file.deep_view(),
            ({
                let s = lock_scan(bytes, path@, text.take(i as int));
                &&& offset == clamp(s.offset as int)
                &&& name_matches(record.name, s.name)
                &&& record.version.deep_view() == s.version
                &&& out.deep_view() == s.found
            }),
        decreases file@.len() - i,
    {
        let ghost s = lock_scan(bytes, path@, text.take(i as int));
        proof {
            assert(text.take(i + 1).drop_last() =~= text.take(i as int));
            assert(text.take(i + 1).last() =~= file@[i as int]@);
        }
        let raw = file[i].as_slice();
        let line = trim_comment(raw);
        let trimmed = trim(line, Class::Space);
        if starts_with(trimmed, "[[") {
            flush(&mut record, &mut out, path, &index, Ghost(s));
        } else {
            read_field(line, trimmed, offset, &mut record, Ghost(s));
        }
        offset = offset.saturating_add(byte_len(raw));
        i += 1;
    }
    proof {
        assert(text.take(i as int) =~= text);
    }
    flush(&mut record, &mut out, path, &index, Ghost(lock_scan(bytes, path@, text)));
    out
}

fn read_field(
    line: &[char],
    trimmed: &[char],
    offset: usize,
    record: &mut Record,
    Ghost(s): Ghost<LockScan>,
)
    requires
        trimmed@ == trim_of(line@, Class::Space),
        offset == clamp(s.offset as int),
        name_matches(old(record).name, s.name),
        old(record).version.deep_view() == s.version,
    ensures
        ({
            let name = value_of(trimmed@, "name"@);
            let version = quoted_text(value_of(trimmed@, "version"@));
            if quoted_text(name) is Some {
                let value = name->Some_0;
                let (a, b) = quoted_of(value)->Some_0;
                let at = s.offset as int + utf8_len(line@.take(value_at(line@, value)));
                &&& name_matches(
                    final(record).name,
                    Some(
                        (
                            value.subrange(a as int, b as int),
                            at + utf8_len(value.take(a as int)),
                            at + utf8_len(value.take(b as int)),
                        ),
                    ),
                )
                &&& final(record).version == old(record).version
            } else {
                &&& final(record).name == old(record).name
                &&& final(record).version.deep_view() == (if version is Some {
                    version
                } else {
                    s.version
                })
            }
        }),
{
    if let Some(v) = value(trimmed, "name") {
        if let Some((a, b)) = first_quoted(v) {
            let at: usize = offset.saturating_add(value_start(line, v));
            proof {
                assert(v@.subrange(0, a as int) =~= v@.take(a as int));
                assert(v@.subrange(0, b as int) =~= v@.take(b as int));
            }
            record.name =
            Some(
                (
                    string(part(v, a, b)),
                    at.saturating_add(byte_len(part(v, 0, a))),
                    at.saturating_add(byte_len(part(v, 0, b))),
                ),
            );
            return ;
        }
    }
    if let Some(v) = value(trimmed, "version") {
        if let Some((a, b)) = first_quoted(v) {
            record.version = Some(string(part(v, a, b)));
        }
    }
}

} // verus!
