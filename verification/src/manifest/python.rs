//! `requirements.txt`: PEP 508 lines, continuations, and the files they name.
use crate::manifest::{seen, sighting, span, span_at};
use crate::model::{Ecosystem, ExtractedPackage, ExtractedView};
use crate::span::LineIndex;
use crate::text::{
    before, byte_len, chars, clamp, count_leading, find, find_class, find_of, first_of, is,
    leading, lemma_first_of_is, lemma_leading_is, lemma_trailing_is, lines, lines_of, part,
    starts_with, string, trim, trim_end, trim_end_of, trim_of, trim_start, trim_start_of, up_to,
    utf8_len, Class,
};
use vstd::prelude::*;
use vstd::utf8::encode_utf8;

verus! {

/// Whether a `<` stands without an `=` behind it.
pub open spec fn strict_bound(spec: Seq<char>) -> bool {
    exists|i: int|
        0 <= i < spec.len() && #[trigger] spec[i] == '<' && (i + 1 >= spec.len() || spec[i + 1]
            != '=')
}

/// Whether the first comparator of a specifier bounds it from above.
pub open spec fn upper_bound(spec: Seq<char>) -> bool {
    first_of(spec.take(run_of(spec, Class::NotComparator) as int), Class::One('<')) is Some
}

/// Whether a specifier names no single lowest version: a wildcard, a list, an
/// exclusion, or an upper bound.
pub open spec fn unsupported(spec: Seq<char>) -> bool {
    ||| first_of(spec, Class::One('*')) is Some
    ||| first_of(spec, Class::One(',')) is Some
    ||| find_of(spec, "!="@) is Some
    ||| strict_bound(spec)
    ||| upper_bound(spec)
}

/// The text up to the first character of a class, by how long it is.
pub open spec fn run_of(s: Seq<char>, k: Class) -> nat {
    match first_of(s, k) {
        Some(n) => n,
        None => s.len(),
    }
}

/// The first version specifier: its comparator, and how much is left from the
/// version on. A comparator that nothing follows is none.
pub open spec fn specifier_of(rest: Seq<char>) -> Option<(Seq<char>, Seq<char>)> {
    match first_of(rest, Class::NotComparator) {
        None => None,
        Some(n) => if n == 0 {
            None
        } else {
            let tail = trim_start_of(rest.skip(n as int), Class::Space);
            if run_of(tail, Class::NotVersion) == 0 {
                None
            } else {
                Some((rest.take(n as int), tail))
            }
        },
    }
}

/// What follows a name: extras in brackets are part of the requirement, not of
/// the package. An open bracket that is never closed is no requirement.
pub open spec fn after_extras(rest: Seq<char>) -> Option<Seq<char>> {
    if rest.len() > 0 && rest[0] == '[' {
        match first_of(rest.skip(1), Class::One(']')) {
            Some(n) => Some(trim_start_of(rest.skip(n as int + 2), Class::Space)),
            None => None,
        }
    } else {
        Some(rest)
    }
}

/// A requirement without its comment and without what surrounds it.
pub open spec fn stripped(line: Seq<char>) -> Seq<char> {
    trim_start_of(trim_end_of(before(line, Class::One('#')), Class::Space), Class::Space)
}

/// One requirement: a package, and the version a pin or lower bound names.
///
/// Comments, options and blank lines are none, and neither is a specifier that
/// names no single lowest version: guessing one would be a false positive.
pub open spec fn requirement_of(
    bytes: Seq<u8>,
    path: Seq<char>,
    line: Seq<char>,
    start: int,
    contiguous: bool,
) -> Option<ExtractedView> {
    let trimmed = stripped(line);
    let body = before(trimmed, Class::One(';'));
    let end = run_of(body, Class::NotName) as int;
    let name = body.take(end);
    if trimmed.len() == 0 || trimmed[0] == '-' || name.len() == 0 {
        None
    } else {
        match after_extras(trim_start_of(body.skip(end), Class::Space)) {
            None => None,
            Some(rest) => if unsupported(rest) {
                None
            } else {
                match (specifier_of(rest), find_of(line, name)) {
                    (Some((comparator, tail)), Some(column)) => {
                        let version = tail.take(run_of(tail, Class::NotVersion) as int);
                        // The rest of the body ends where the body does.
                        let at = leading(
                            trim_end_of(before(line, Class::One('#')), Class::Space),
                            Class::Space,
                        ) + body.len() - tail.len();
                        Some(
                            ExtractedView {
                                version_span: if contiguous {
                                    Some(
                                        span_at(
                                            bytes,
                                            start + utf8_len(line.take(at)),
                                            utf8_len(version) as int,
                                        ),
                                    )
                                } else {
                                    None
                                },
                                ..seen(
                                    Ecosystem::PyPI,
                                    name,
                                    version,
                                    path,
                                    span_at(
                                        bytes,
                                        start + utf8_len(line.take(column as int)),
                                        utf8_len(name) as int,
                                    ),
                                    seq![],
                                    !(comparator == "=="@ || comparator == "==="@),
                                )
                            },
                        )
                    },
                    _ => None,
                }
            },
        }
    }
}

/// How far a file has been read.
pub struct PipScan {
    pub offset: nat,
    /// What lines that were continued hold so far, and where the first starts.
    pub pending: Seq<char>,
    pub pending_start: nat,
    pub found: Seq<ExtractedView>,
}

/// One line. A trailing backslash continues the requirement onto the next; the
/// version of one that was joined has no span, since it stands on no one line.
pub open spec fn pip_step(bytes: Seq<u8>, path: Seq<char>, s: PipScan, line: Seq<char>) -> PipScan {
    let text = trim_end_of(line, Class::LineEnd);
    let offset = s.offset + utf8_len(line);
    if text.len() > 0 && text.last() == '\\' {
        PipScan {
            offset,
            pending: s.pending + text.drop_last(),
            pending_start: if s.pending.len() == 0 { s.offset } else { s.pending_start },
            found: s.found,
        }
    } else {
        let whole = s.pending + text;
        let start = if s.pending.len() == 0 { s.offset } else { s.pending_start };
        PipScan {
            offset,
            pending: seq![],
            pending_start: s.pending_start,
            found: match requirement_of(bytes, path, whole, start as int, start == s.offset) {
                Some(x) => s.found.push(x),
                None => s.found,
            },
        }
    }
}

pub open spec fn pip_scan(bytes: Seq<u8>, path: Seq<char>, file: Seq<Seq<char>>) -> PipScan
    decreases file.len(),
{
    if file.len() == 0 {
        PipScan { offset: 0, pending: seq![], pending_start: 0, found: seq![] }
    } else {
        pip_step(bytes, path, pip_scan(bytes, path, file.drop_last()), file.last())
    }
}

/// What a requirements file asks for.
pub open spec fn requirements_of(src: Seq<char>, path: Seq<char>) -> Seq<ExtractedView> {
    pip_scan(encode_utf8(src), path, lines_of(src)).found
}

/// What follows a prefix.
pub open spec fn behind(s: Seq<char>, prefix: Seq<char>) -> Option<Seq<char>> {
    if prefix.is_prefix_of(s) {
        Some(s.skip(prefix.len() as int))
    } else {
        None
    }
}

/// The file a line pulls in.
pub open spec fn target_of(line: Seq<char>) -> Option<Seq<char>> {
    let text = trim_of(before(line, Class::One('#')), Class::Space);
    let target = match behind(text, "-r "@) {
        Some(t) => Some(t),
        None => match behind(text, "--requirement "@) {
            Some(t) => Some(t),
            None => behind(text, "--requirement="@),
        },
    };
    match target {
        Some(t) => if trim_of(t, Class::Space).len() == 0 {
            None
        } else {
            Some(trim_of(t, Class::Space))
        },
        None => None,
    }
}

pub open spec fn targets_of(file: Seq<Seq<char>>) -> Seq<Seq<char>>
    decreases file.len(),
{
    if file.len() == 0 {
        seq![]
    } else {
        match target_of(file.last()) {
            Some(t) => targets_of(file.drop_last()).push(t),
            None => targets_of(file.drop_last()),
        }
    }
}

// ---- code ----

fn has_strict_bound(s: &[char]) -> (r: bool)
    ensures
        r == strict_bound(s@),
{
    let len: usize = s.len();
    let mut i: usize = 0;
    while i < len
        invariant
            i <= len,
            len == s@.len(),
            forall|j: int|
                0 <= j < i && #[trigger] s@[j] == '<' ==> j + 1 < s@.len() && s@[j + 1] == '=',
        decreases len - i,
    {
        if s[i] == '<' && (i == len - 1 || s[i + 1] != '=') {
            proof {
                assert(s@[i as int] == '<');
            }
            return true;
        }
        i += 1;
    }
    false
}

fn has_upper_bound(s: &[char]) -> (r: bool)
    ensures
        r == upper_bound(s@),
{
    let n: usize = run(s, Class::NotComparator);
    proof {
        assert(s@.subrange(0, n as int) =~= s@.take(n as int));
    }
    find_class(part(s, 0, n), Class::One('<')).is_some()
}

/// Whether a specifier names no single lowest version.
fn unsupported_constraint(s: &[char]) -> (r: bool)
    ensures
        r == unsupported(s@),
{
    let not_equal = chars("!=");
    find_class(s, Class::One('*')).is_some() || find_class(s, Class::One(',')).is_some() || find(
        s,
        not_equal.as_slice(),
    ).is_some() || has_strict_bound(s) || has_upper_bound(s)
}

fn run(s: &[char], k: Class) -> (r: usize)
    ensures
        r == run_of(s@, k),
        r <= s@.len(),
{
    match find_class(s, k) {
        Some(n) => n,
        None => s.len(),
    }
}

fn specifier<'a>(rest: &'a [char]) -> (r: Option<(&'a [char], &'a [char])>)
    ensures
        match r {
            Some(p) => specifier_of(rest@) == Some((p.0@, p.1@)) && p.1@.len() <= rest@.len(),
            None => specifier_of(rest@) is None,
        },
{
    let n: usize = match find_class(rest, Class::NotComparator) {
        Some(n) => n,
        None => return None,
    };
    if n == 0 {
        return None;
    }
    let after = part(rest, n, rest.len());
    let tail = trim_start(after, Class::Space);
    proof {
        assert(after@ =~= rest@.skip(n as int));
        lemma_leading_is(after@, Class::Space);
        assert(rest@.subrange(0, n as int) =~= rest@.take(n as int));
    }
    if run(tail, Class::NotVersion) == 0 {
        return None;
    }
    Some((part(rest, 0, n), tail))
}

fn skip_extras<'a>(rest: &'a [char]) -> (r: Option<&'a [char]>)
    ensures
        match r {
            Some(s) => after_extras(rest@) == Some(s@) && s@.len() <= rest@.len(),
            None => after_extras(rest@) is None,
        },
{
    let len: usize = rest.len();
    if len > 0 && rest[0] == '[' {
        let inside = part(rest, 1, len);
        proof {
            assert(inside@ =~= rest@.skip(1));
        }
        match find_class(inside, Class::One(']')) {
            Some(n) => {
                let after = part(rest, n + 2, len);
                proof {
                    assert(after@ =~= rest@.skip(n + 2));
                    lemma_leading_is(after@, Class::Space);
                }
                Some(trim_start(after, Class::Space))
            },
            None => None,
        }
    } else {
        Some(rest)
    }
}

fn requirement(
    line: &[char],
    start: usize,
    path: &str,
    lines: &LineIndex,
    contiguous: bool,
    Ghost(place): Ghost<int>,
) -> (r: Option<ExtractedPackage>)
    requires
        lines.wf(),
        place >= 0,
        start == clamp(place),
    ensures
        r.deep_view() == requirement_of(lines.bytes@, path@, line@, place, contiguous),
{
    let len: usize = line.len();
    let kept = trim_end(up_to(line, Class::One('#')), Class::Space);
    let lead: usize = count_leading(kept, Class::Space);
    let trimmed = trim_start(kept, Class::Space);
    proof {
        lemma_first_of_is(line@, Class::One('#'));
        lemma_trailing_is(before(line@, Class::One('#')), Class::Space);
        lemma_leading_is(kept@, Class::Space);
        lemma_first_of_is(trimmed@, Class::One(';'));
    }
    if trimmed.len() == 0 || trimmed[0] == '-' {
        return None;
    }
    // Environment markers do not affect which package is named.
    let body = up_to(trimmed, Class::One(';'));
    let end: usize = run(body, Class::NotName);
    let name = part(body, 0, end);
    if name.len() == 0 {
        return None;
    }
    let after = part(body, end, body.len());
    proof {
        assert(name@ =~= body@.take(end as int));
        assert(after@ =~= body@.skip(end as int));
        lemma_leading_is(after@, Class::Space);
    }
    let rest = match skip_extras(trim_start(after, Class::Space)) {
        Some(rest) => rest,
        None => return None,
    };
    if unsupported_constraint(rest) {
        return None;
    }
    let (comparator, tail) = match specifier(rest) {
        Some(p) => p,
        None => return None,
    };
    let column: usize = match find(line, name) {
        Some(i) => i,
        None => return None,
    };
    let version = part(tail, 0, run(tail, Class::NotVersion));
    let at: usize = lead + (body.len() - tail.len());
    proof {
        assert(version@ =~= tail@.take(run_of(tail@, Class::NotVersion) as int));
        assert(line@.subrange(0, at as int) =~= line@.take(at as int));
        assert(line@.subrange(0, column as int) =~= line@.take(column as int));
    }
    let version_span = if contiguous {
        Some(span(lines, start.saturating_add(byte_len(part(line, 0, at))), byte_len(version)))
    } else {
        None
    };
    let name_span = span(
        lines,
        start.saturating_add(byte_len(part(line, 0, column))),
        byte_len(name),
    );
    let groups: Vec<String> = Vec::new();
    proof {
        assert(groups.deep_view() =~= seq![]);
    }
    let name_text = string(name);
    let version_text = string(version);
    Some(
        sighting(
            Ecosystem::PyPI,
            name_text.as_str(),
            version_text.as_str(),
            path,
            name_span,
            groups,
            // Only `==` and `===` name an installed version; everything else is
            // a constraint whose lowest satisfying version is a guess.
            !(is(comparator, "==") || is(comparator, "===")),
        ).with_version_span(version_span),
    )
}

/// PEP 508 requirement lines.
///
/// Only the shapes that name a version matter here: an unpinned requirement
/// has nothing to look up. Editable installs are skipped, and so are the lines
/// that pull other files in, which [`requirement_includes`] lists.
pub fn requirements(src: &str, path: &str) -> (r: Vec<ExtractedPackage>)
    ensures
        r.deep_view() == requirements_of(src@, path@),
{
    let index = LineIndex::new(src);
    let ghost bytes = encode_utf8(src@);
    let all = chars(src);
    let file = lines(all.as_slice());
    let ghost text = file.deep_view();
    let mut out: Vec<ExtractedPackage> = Vec::new();
    let mut offset: usize = 0;
    let mut pending: Vec<char> = Vec::new();
    let mut pending_start: usize = 0;
    let mut i: usize = 0;
    proof {
        assert(out.deep_view() =~= seq![]);
    }
    while i < file.len()
        invariant
            i <= file@.len(),
            index.wf(),
            index.bytes@ == bytes,
            text == file.deep_view(),
            text == lines_of(src@),
            ({
                let s = pip_scan(bytes, path@, text.take(i as int));
                &&& offset == clamp(s.offset as int)
                &&& pending@ == s.pending
                &&& pending_start == clamp(s.pending_start as int)
                &&& out.deep_view() == s.found
                &&& s.pending.len() > 0 ==> s.pending_start < s.offset
            }),
        decreases file@.len() - i,
    {
        let ghost s = pip_scan(bytes, path@, text.take(i as int));
        proof {
            assert(text.take(i + 1).drop_last() =~= text.take(i as int));
            assert(text.take(i + 1).last() =~= file@[i as int]@);
            lemma_line_bytes(src@, i as int);
        }
        let line = file[i].as_slice();
        let content = trim_end(line, Class::LineEnd);
        let fresh = pending.len() == 0;
        let start: usize = if fresh { offset } else { pending_start };
        let ghost place: int = if fresh { s.offset as int } else { s.pending_start as int };
        if content.len() > 0 && content[content.len() - 1] == '\\' {
            let head = part(content, 0, content.len() - 1);
            let ghost held = pending@;
            let mut more = vstd::slice::slice_to_vec(head);
            proof {
                assert(more@ =~= content@.drop_last());
            }
            pending.append(&mut more);
            pending_start = start;
        } else {
            let mut rest = vstd::slice::slice_to_vec(content);
            proof {
                assert(rest@ =~= content@);
            }
            pending.append(&mut rest);
            let found = requirement(pending.as_slice(), start, path, &index, fresh, Ghost(place));
            let ghost before = out.deep_view();
            if let Some(x) = found {
                out.push(x);
                proof {
                    assert(out.deep_view() =~= before.push(x.deep_view()));
                }
            }
            pending = Vec::new();
            proof {
                assert(pending@ =~= seq![]);
            }
        }
        offset = offset.saturating_add(byte_len(line));
        i += 1;
    }
    proof {
        assert(text.take(i as int) =~= text);
    }
    out
}

/// A line takes at least a byte.
proof fn lemma_line_bytes(src: Seq<char>, i: int)
    requires
        0 <= i < lines_of(src).len(),
    ensures
        utf8_len(lines_of(src)[i]) > 0,
    decreases src.len(),
{
    let k = Class::One('\n');
    lemma_first_of_is(src, k);
    let n: int = match first_of(src, k) {
        Some(n) => n as int + 1,
        None => src.len() as int,
    };
    assert(lines_of(src)[0] =~= src.take(n));
    if i == 0 {
        let line = lines_of(src)[0];
        crate::text::lemma_utf8_push(line.drop_last(), line.last());
        assert(line.drop_last().push(line.last()) =~= line);
    } else {
        assert(lines_of(src)[i] == lines_of(src.skip(n))[i - 1]);
        lemma_line_bytes(src.skip(n), i - 1);
    }
}

fn strip<'a>(s: &'a [char], prefix: &str) -> (r: Option<&'a [char]>)
    ensures
        match r {
            Some(t) => behind(s@, prefix@) == Some(t@),
            None => behind(s@, prefix@) is None,
        },
{
    if starts_with(s, prefix) {
        let n: usize = chars(prefix).len();
        proof {
            assert(s@.subrange(n as int, s@.len() as int) =~= s@.skip(n as int));
        }
        Some(part(s, n, s.len()))
    } else {
        None
    }
}

fn target(line: &[char]) -> (r: Option<String>)
    ensures
        r.deep_view() == target_of(line@),
{
    let text = trim(up_to(line, Class::One('#')), Class::Space);
    let found = match strip(text, "-r ") {
        Some(t) => t,
        None => match strip(text, "--requirement ") {
            Some(t) => t,
            None => match strip(text, "--requirement=") {
                Some(t) => t,
                None => return None,
            },
        },
    };
    let found = trim(found, Class::Space);
    if found.len() == 0 {
        None
    } else {
        Some(string(found))
    }
}

/// The files a requirements file pulls in with `-r`, as written.
///
/// Listed rather than read here, because the parsers touch no filesystem; the
/// extractor resolves and follows them.
pub fn requirement_includes(src: &str) -> (r: Vec<String>)
    ensures
        r.deep_view() == targets_of(lines_of(src@)),
{
    let all = chars(src);
    let file = lines(all.as_slice());
    let ghost text = file.deep_view();
    let mut out: Vec<String> = Vec::new();
    let mut i: usize = 0;
    proof {
        assert(out.deep_view() =~= seq![]);
    }
    while i < file.len()
        invariant
            i <= file@.len(),
            text == file.deep_view(),
            out.deep_view() == targets_of(text.take(i as int)),
        decreases file@.len() - i,
    {
        let ghost kept = out.deep_view();
        proof {
            assert(text.take(i + 1).drop_last() =~= text.take(i as int));
            assert(text.take(i + 1).last() =~= file@[i as int]@);
        }
        if let Some(t) = target(file[i].as_slice()) {
            out.push(t);
            proof {
                assert(out.deep_view() =~= kept.push(t@));
            }
        }
        i += 1;
    }
    proof {
        assert(text.take(i as int) =~= text);
    }
    out
}

} // verus!
