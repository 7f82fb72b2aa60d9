//! `go.mod`: `require`, `replace` and the `go`/`toolchain` directives.
use crate::manifest::{seen, sighting, span, span_at};
use crate::model::{Ecosystem, ExtractedPackage, ExtractedView, GO_TOOLCHAIN};
use crate::span::LineIndex;
use crate::text::{
    before, byte_len, chars, clamp, find, find_of, is, is_space, lines, lines_of, part, same,
    starts_with, string, trim, trim_end, trim_end_of, trim_of, trim_start, trim_start_of, up_to,
    utf8_len, word, words, words_of, Class,
};
use vstd::prelude::*;
use vstd::utf8::encode_utf8;

verus! {

/// A `replace` directive: which module it rewrites, and to what.
pub struct Replace {
    pub old: String,
    /// `None` replaces every version of `old`.
    pub old_version: Option<String>,
    /// `None` for a filesystem path, which has no version to look up.
    pub new: Option<(String, String)>,
}

/// What a [`Replace`] says.
pub struct ReplaceView {
    pub old: Seq<char>,
    pub old_version: Option<Seq<char>>,
    pub new: Option<(Seq<char>, Seq<char>)>,
}

impl DeepView for Replace {
    type V = ReplaceView;

    open spec fn deep_view(&self) -> ReplaceView {
        ReplaceView {
            old: self.old@,
            old_version: self.old_version.deep_view(),
            new: match self.new {
                Some(n) => Some((n.0@, n.1@)),
                None => None,
            },
        }
    }
}

/// A line without its comment, or without its line end where it has none.
pub open spec fn code_of(line: Seq<char>) -> Seq<char> {
    match find_of(line, "//"@) {
        Some(i) => line.take(i as int),
        None => trim_end_of(line, Class::LineEnd),
    }
}

/// A version without the `v` the module file writes.
pub open spec fn bare(version: Seq<char>) -> Seq<char> {
    if version.len() > 0 && version[0] == 'v' {
        version.skip(1)
    } else {
        version
    }
}

/// `old [v] => new [v]`, the body of a replace directive.
pub open spec fn replace_of(body: Seq<char>) -> Option<ReplaceView> {
    match find_of(body, "=>"@) {
        None => None,
        Some(i) => {
            let old = body.take(i as int);
            let new = body.skip(i as int + 2);
            match (word(old, 0), word(new, 0)) {
                (Some(old_path), Some(new_path)) => Some(
                    ReplaceView {
                        old: old_path,
                        old_version: match word(old, 1) {
                            Some(v) => Some(bare(v)),
                            None => None,
                        },
                        new: match word(new, 1) {
                            Some(v) => Some((new_path, bare(v))),
                            None => None,
                        },
                    },
                ),
                _ => None,
            }
        },
    }
}

/// What stands behind the `require` of a standalone entry, or all of an entry
/// inside a block.
pub open spec fn require_body(code: Seq<char>) -> Seq<char> {
    let body = trim_start_of(code, Class::Space);
    if "require"@.is_prefix_of(body) {
        trim_start_of(body.skip(7), Class::Space)
    } else {
        body
    }
}

/// One `require` entry: a module and a version with a `v` before it.
///
/// The evidence is where the module's path is first written on the line. The
/// version's span starts after the `v`, so that a rewrite keeps the prefix.
pub open spec fn require_of(
    bytes: Seq<u8>,
    path: Seq<char>,
    code: Seq<char>,
    start: int,
) -> Option<ExtractedView> {
    let body = require_body(code);
    match (word(body, 0), word(body, 1)) {
        (Some(module), Some(version)) => if module == "("@ || version.len() == 0 || version[0]
            != 'v' {
            None
        } else {
            match find_of(code, module) {
                Some(column) => {
                    let at = code.len() - body.len() + words_of(body)[1].0;
                    Some(
                        ExtractedView {
                            version_span: Some(
                                span_at(
                                    bytes,
                                    start + utf8_len(code.take(at)) + 1,
                                    utf8_len(version.skip(1)) as int,
                                ),
                            ),
                            ..seen(
                                Ecosystem::Go,
                                module,
                                version.skip(1),
                                path,
                                span_at(
                                    bytes,
                                    start + utf8_len(code.take(column as int)),
                                    utf8_len(module) as int,
                                ),
                                seq![],
                                false,
                            )
                        },
                    )
                },
                None => None,
            }
        },
        _ => None,
    }
}

/// How many bytes of a toolchain's name stand before its version: those of a
/// `go`, where it starts with one.
pub open spec fn before_version(name: Seq<char>) -> int {
    if "go"@.is_prefix_of(name) {
        2
    } else {
        0
    }
}

/// How far a file has been read.
pub struct GoScan {
    /// The bytes read so far.
    pub offset: nat,
    /// Inside a block, and whether it is one of `require`.
    pub block: Option<bool>,
    pub required: Seq<ExtractedView>,
    pub replaces: Seq<ReplaceView>,
    /// A version and where it starts.
    pub go: Option<(Seq<char>, int)>,
    pub toolchain: Option<(Seq<char>, int)>,
}

pub open spec fn scan_start() -> GoScan {
    GoScan {
        offset: 0,
        block: None,
        required: seq![],
        replaces: seq![],
        go: None,
        toolchain: None,
    }
}

/// A list with one more, if there is one.
pub open spec fn and<A>(list: Seq<A>, more: Option<A>) -> Seq<A> {
    match more {
        Some(x) => list.push(x),
        None => list,
    }
}

/// What follows a keyword at the start of a line and the space behind it.
pub open spec fn after_keyword(trimmed: Seq<char>, keyword: Seq<char>) -> Option<Seq<char>> {
    let rest = trimmed.skip(keyword.len() as int);
    if keyword.is_prefix_of(trimmed) && rest.len() > 0 && is_space(rest[0]) {
        Some(trim_start_of(rest, Class::Space))
    } else {
        None
    }
}

/// What follows a directive and one space, and where it first stands.
pub open spec fn directive(
    code: Seq<char>,
    trimmed: Seq<char>,
    keyword: Seq<char>,
) -> Option<(Seq<char>, nat)> {
    if keyword.is_prefix_of(trimmed) {
        let value = trim_of(trimmed.skip(keyword.len() as int), Class::Space);
        match find_of(code, value) {
            Some(column) => Some((value, utf8_len(code.take(column as int)))),
            None => None,
        }
    } else {
        None
    }
}

/// `go1.21.5`, or `go1.21.5-something` for a custom build.
pub open spec fn toolchain_version(name: Seq<char>) -> Seq<char> {
    let version = before(name, Class::One('-'));
    if "go"@.is_prefix_of(version) {
        version.skip(2)
    } else {
        version
    }
}

/// One line, inside a block.
pub open spec fn block_step(
    bytes: Seq<u8>,
    path: Seq<char>,
    s: GoScan,
    code: Seq<char>,
    is_require: bool,
) -> GoScan {
    let trimmed = trim_of(code, Class::Space);
    if trimmed == ")"@ {
        GoScan { block: None, ..s }
    } else if is_require {
        GoScan {
            required: and(s.required, require_of(bytes, path, code, s.offset as int)),
            ..s
        }
    } else {
        GoScan { replaces: and(s.replaces, replace_of(trimmed)), ..s }
    }
}

/// What a `require` or `replace` outside any block adds or opens.
pub open spec fn keyword_step(
    bytes: Seq<u8>,
    path: Seq<char>,
    s: GoScan,
    code: Seq<char>,
) -> GoScan {
    let trimmed = trim_of(code, Class::Space);
    let s1 = match after_keyword(trimmed, "require"@) {
        Some(rest) => if rest == "("@ {
            GoScan { block: Some(true), ..s }
        } else {
            GoScan {
                required: and(s.required, require_of(bytes, path, code, s.offset as int)),
                ..s
            }
        },
        None => s,
    };
    match after_keyword(trimmed, "replace"@) {
        Some(rest) => if rest == "("@ {
            GoScan { block: Some(false), ..s1 }
        } else {
            GoScan { replaces: and(s1.replaces, replace_of(rest)), ..s1 }
        },
        None => s1,
    }
}

/// What a `go` or `toolchain` directive says.
pub open spec fn directive_step(s: GoScan, code: Seq<char>) -> GoScan {
    let trimmed = trim_of(code, Class::Space);
    let s1 = match directive(code, trimmed, "go "@) {
        Some((value, column)) => GoScan { go: Some((value, s.offset as int + column)), ..s },
        None => s,
    };
    match directive(code, trimmed, "toolchain "@) {
        Some((value, column)) => GoScan {
            toolchain: Some(
                (toolchain_version(value), s.offset as int + column + before_version(value)),
            ),
            ..s1
        },
        None => s1,
    }
}

/// One line, outside any block.
pub open spec fn plain_step(bytes: Seq<u8>, path: Seq<char>, s: GoScan, code: Seq<char>) -> GoScan {
    directive_step(keyword_step(bytes, path, s, code), code)
}

/// One line.
pub open spec fn scan_step(bytes: Seq<u8>, path: Seq<char>, s: GoScan, line: Seq<char>) -> GoScan {
    let code = code_of(line);
    let next = match s.block {
        Some(is_require) => block_step(bytes, path, s, code, is_require),
        None => plain_step(bytes, path, s, code),
    };
    GoScan { offset: s.offset + utf8_len(line), ..next }
}

pub open spec fn scan_of(bytes: Seq<u8>, path: Seq<char>, file: Seq<Seq<char>>) -> GoScan
    decreases file.len(),
{
    if file.len() == 0 {
        scan_start()
    } else {
        scan_step(bytes, path, scan_of(bytes, path, file.drop_last()), file.last())
    }
}

/// Whether a replacement rewrites a module at a version.
pub open spec fn applies(r: ReplaceView, found: ExtractedView) -> bool {
    r.old == found.package.key.name && (r.old_version is None || r.old_version
        == Some(found.package.version))
}

/// The first replacement that applies.
pub open spec fn applicable(replaces: Seq<ReplaceView>, found: ExtractedView) -> Option<ReplaceView>
    decreases replaces.len(),
{
    if replaces.len() == 0 {
        None
    } else if applies(replaces[0], found) {
        Some(replaces[0])
    } else {
        applicable(replaces.skip(1), found)
    }
}

/// What the build uses in place of a required module: the replacement, nothing
/// where that is a filesystem path, or the module itself.
pub open spec fn replaced(
    replaces: Seq<ReplaceView>,
    found: ExtractedView,
    path: Seq<char>,
) -> Option<ExtractedView> {
    match applicable(replaces, found) {
        None => Some(found),
        Some(r) => match r.new {
            None => None,
            Some((name, version)) => Some(
                seen(
                    Ecosystem::Go,
                    name,
                    version,
                    path,
                    found.evidence.range,
                    seq![],
                    false,
                ),
            ),
        },
    }
}

pub open spec fn all_replaced(
    replaces: Seq<ReplaceView>,
    found: Seq<ExtractedView>,
    path: Seq<char>,
) -> Seq<ExtractedView>
    decreases found.len(),
{
    if found.len() == 0 {
        seq![]
    } else {
        and(
            all_replaced(replaces, found.drop_last(), path),
            replaced(replaces, found.last(), path),
        )
    }
}

/// The toolchain, at a version and where that is written.
pub open spec fn toolchain_of(
    bytes: Seq<u8>,
    path: Seq<char>,
    version: Seq<char>,
    at: int,
) -> ExtractedView {
    let span = span_at(bytes, at, utf8_len(version) as int);
    ExtractedView {
        version_span: Some(span),
        ..seen(Ecosystem::Go, GO_TOOLCHAIN@, version, path, span, seq![], false)
    }
}

/// What a `go.mod` declares: the required modules as replaced, then the
/// toolchain, from its own directive where there is one.
pub open spec fn go_mod_of(src: Seq<char>, path: Seq<char>) -> Seq<ExtractedView> {
    let bytes = encode_utf8(src);
    let s = scan_of(bytes, path, lines_of(src));
    let modules = all_replaced(s.replaces, s.required, path);
    match (s.toolchain, s.go) {
        (Some((version, at)), _) => modules.push(toolchain_of(bytes, path, version, at)),
        (None, Some((version, at))) => modules.push(toolchain_of(bytes, path, version, at)),
        (None, None) => modules,
    }
}

// ---- code ----

fn code(line: &[char]) -> (r: &[char])
    ensures
        r@ == code_of(line@),
{
    let mark = chars("//");
    match find(line, mark.as_slice()) {
        Some(i) => {
            proof {
                assert(line@.subrange(0, i as int) =~= line@.take(i as int));
            }
            part(line, 0, i)
        },
        None => trim_end(line, Class::LineEnd),
    }
}

fn without_v(version: &[char]) -> (r: &[char])
    ensures
        r@ == bare(version@),
{
    if version.len() > 0 && version[0] == 'v' {
        proof {
            assert(version@.subrange(1, version@.len() as int) =~= version@.skip(1));
        }
        part(version, 1, version.len())
    } else {
        version
    }
}

/// The `i`th word of some text.
fn nth_word<'a>(s: &'a [char], found: &Vec<(usize, usize)>, i: usize) -> (r: Option<&'a [char]>)
    requires
        crate::text::spans(found@) == words_of(s@),
        forall|i: int| 0 <= i < found@.len() ==> (#[trigger] found@[i]).0 < found@[i].1 <= s@.len(),
    ensures
        match r {
            Some(w) => word(s@, i as int) == Some(w@) && w@.len() > 0 && i < found@.len(),
            None => word(s@, i as int) is None,
        },
{
    proof {
        assert(found@.len() == crate::text::spans(found@).len());
    }
    if i < found.len() {
        let (lo, hi) = found[i];
        proof {
            assert(crate::text::spans(found@)[i as int] == (lo as nat, hi as nat));
        }
        Some(part(s, lo, hi))
    } else {
        None
    }
}

fn replace_line(body: &[char]) -> (r: Option<Replace>)
    ensures
        r.deep_view() == replace_of(body@),
{
    let arrow = chars("=>");
    proof {
        reveal_strlit("=>");
    }
    let i: usize = match find(body, arrow.as_slice()) {
        Some(i) => i,
        None => return None,
    };
    let len: usize = body.len();
    let old = part(body, 0, i);
    let new = part(body, i + 2, len);
    proof {
        assert(old@ =~= body@.take(i as int));
        assert(new@ =~= body@.skip(i + 2));
    }
    let old_words = words(old);
    let new_words = words(new);
    let old_path = match nth_word(old, &old_words, 0) {
        Some(w) => w,
        None => return None,
    };
    let new_path = match nth_word(new, &new_words, 0) {
        Some(w) => w,
        None => return None,
    };
    Some(
        Replace {
            old: string(old_path),
            old_version: match nth_word(old, &old_words, 1) {
                Some(v) => Some(string(without_v(v))),
                None => None,
            },
            new: match nth_word(new, &new_words, 1) {
                Some(v) => Some((string(new_path), string(without_v(v)))),
                None => None,
            },
        },
    )
}

fn body_of(code: &[char]) -> (r: &[char])
    ensures
        r@ == require_body(code@),
        r@.len() <= code@.len(),
{
    let body = trim_start(code, Class::Space);
    proof {
        crate::text::lemma_leading_is(code@, Class::Space);
        reveal_strlit("require");
    }
    if starts_with(body, "require") {
        let rest = part(body, 7, body.len());
        proof {
            assert(rest@ =~= body@.skip(7));
            crate::text::lemma_leading_is(rest@, Class::Space);
        }
        trim_start(rest, Class::Space)
    } else {
        body
    }
}

/// One `require` entry, whether standalone or inside a block.
fn require_line(code: &[char], start: usize, path: &str, lines: &LineIndex, Ghost(at): Ghost<int>) -> (r: Option<
    ExtractedPackage,
>)
    requires
        lines.wf(),
        at >= 0,
        start == clamp(at),
    ensures
        r.deep_view() == require_of(lines.bytes@, path@, code@, at),
{
    let body = body_of(code);
    let found = words(body);
    let module = match nth_word(body, &found, 0) {
        Some(w) => w,
        None => return None,
    };
    let version = match nth_word(body, &found, 1) {
        Some(w) => w,
        None => return None,
    };
    if is(module, "(") || version[0] != 'v' {
        return None;
    }
    let column: usize = match find(code, module) {
        Some(i) => i,
        None => return None,
    };
    let offset: usize = code.len() - body.len() + found[1].0;
    let number = part(version, 1, version.len());
    proof {
        assert(number@ =~= version@.skip(1));
        assert(crate::text::spans(found@)[1] == (found@[1].0 as nat, found@[1].1 as nat));
        assert(code@.subrange(0, offset as int) =~= code@.take(offset as int));
        assert(code@.subrange(0, column as int) =~= code@.take(column as int));
    }
    let version_at: usize = start.saturating_add(byte_len(part(code, 0, offset))).saturating_add(1);
    let version_span = span(lines, version_at, byte_len(number));
    let name_at: usize = start.saturating_add(byte_len(part(code, 0, column)));
    let name_span = span(lines, name_at, byte_len(module));
    let groups: Vec<String> = Vec::new();
    proof {
        assert(groups.deep_view() =~= seq![]);
    }
    let module_text = string(module);
    let version_text = string(number);
    Some(
        sighting(
            Ecosystem::Go,
            module_text.as_str(),
            // Advisories record Go versions without the `v` the file writes.
            version_text.as_str(),
            path,
            name_span,
            groups,
            false,
        ).with_version_span(Some(version_span)),
    )
}

fn keyword_rest<'a>(trimmed: &'a [char], keyword: &str) -> (r: Option<&'a [char]>)
    ensures
        match r {
            Some(rest) => after_keyword(trimmed@, keyword@) == Some(rest@),
            None => after_keyword(trimmed@, keyword@) is None,
        },
{
    if !starts_with(trimmed, keyword) {
        return None;
    }
    let n: usize = chars(keyword).len();
    let rest = part(trimmed, n, trimmed.len());
    proof {
        assert(rest@ =~= trimmed@.skip(n as int));
    }
    if rest.len() > 0 && Class::Space.holds(rest[0]) {
        Some(trim_start(rest, Class::Space))
    } else {
        None
    }
}

fn directive_value<'a>(code: &[char], trimmed: &'a [char], keyword: &str) -> (r: Option<
    (&'a [char], usize),
>)
    ensures
        match r {
            Some(found) => directive(code@, trimmed@, keyword@) is Some && directive(
                code@,
                trimmed@,
                keyword@,
            )->Some_0.0 == found.0@ && found.1 == clamp(
                directive(code@, trimmed@, keyword@)->Some_0.1 as int,
            ),
            None => directive(code@, trimmed@, keyword@) is None,
        },
{
    if !starts_with(trimmed, keyword) {
        return None;
    }
    let n: usize = chars(keyword).len();
    let rest = part(trimmed, n, trimmed.len());
    proof {
        assert(rest@ =~= trimmed@.skip(n as int));
    }
    let value = trim(rest, Class::Space);
    match find(code, value) {
        Some(column) => {
            proof {
                assert(code@.subrange(0, column as int) =~= code@.take(column as int));
            }
            Some((value, byte_len(part(code, 0, column))))
        },
        None => None,
    }
}

fn version_of_toolchain(name: &[char]) -> (r: &[char])
    ensures
        r@ == toolchain_version(name@),
{
    let version = up_to(name, Class::One('-'));
    proof {
        reveal_strlit("go");
    }
    if starts_with(version, "go") {
        proof {
            assert(version@.subrange(2, version@.len() as int) =~= version@.skip(2));
        }
        part(version, 2, version.len())
    } else {
        version
    }
}

/// How far a file has been read.
struct Reader {
    offset: usize,
    block: Option<bool>,
    required: Vec<ExtractedPackage>,
    replaces: Vec<Replace>,
    go: Option<(String, usize)>,
    toolchain: Option<(String, usize)>,
}

spec fn place_matches(code: Option<(String, usize)>, model: Option<(Seq<char>, int)>) -> bool {
    match (code, model) {
        (Some(c), Some(m)) => c.0@ == m.0 && c.1 == clamp(m.1) && m.1 >= 0,
        (None, None) => true,
        _ => false,
    }
}

impl Reader {
    spec fn at(self, s: GoScan) -> bool {
        &&& self.offset == clamp(s.offset as int)
        &&& self.block == s.block
        &&& self.required.deep_view() == s.required
        &&& self.replaces.deep_view() == s.replaces
        &&& place_matches(self.go, s.go)
        &&& place_matches(self.toolchain, s.toolchain)
    }

    fn add_require(&mut self, code: &[char], path: &str, lines: &LineIndex, Ghost(s): Ghost<GoScan>)
        requires
            lines.wf(),
            old(self).at(s),
        ensures
            final(self).at(
                GoScan {
                    required: and(
                        s.required,
                        require_of(lines.bytes@, path@, code@, s.offset as int),
                    ),
                    ..s
                },
            ),
    {
        let ghost before = self.required.deep_view();
        match require_line(code, self.offset, path, lines, Ghost(s.offset as int)) {
            Some(found) => {
                self.required.push(found);
                proof {
                    assert(self.required.deep_view() =~= before.push(found.deep_view()));
                }
            },
            None => {},
        }
    }

    fn add_replace(&mut self, body: &[char], Ghost(s): Ghost<GoScan>)
        requires
            old(self).at(s),
        ensures
            final(self).at(GoScan { replaces: and(s.replaces, replace_of(body@)), ..s }),
    {
        let ghost before = self.replaces.deep_view();
        match replace_line(body) {
            Some(found) => {
                self.replaces.push(found);
                proof {
                    assert(self.replaces.deep_view() =~= before.push(found.deep_view()));
                }
            },
            None => {},
        }
    }

    fn in_block(
        &mut self,
        code: &[char],
        is_require: bool,
        path: &str,
        lines: &LineIndex,
        Ghost(s): Ghost<GoScan>,
    )
        requires
            lines.wf(),
            old(self).at(s),
        ensures
            final(self).at(block_step(lines.bytes@, path@, s, code@, is_require)),
    {
        let trimmed = trim(code, Class::Space);
        if is(trimmed, ")") {
            self.block = None;
        } else if is_require {
            self.add_require(code, path, lines, Ghost(s));
        } else {
            self.add_replace(trimmed, Ghost(s));
        }
    }

    fn keywords(&mut self, code: &[char], path: &str, lines: &LineIndex, Ghost(s): Ghost<GoScan>)
        requires
            lines.wf(),
            old(self).at(s),
        ensures
            final(self).at(keyword_step(lines.bytes@, path@, s, code@)),
    {
        let ghost mut now = s;
        let trimmed = trim(code, Class::Space);
        if let Some(rest) = keyword_rest(trimmed, "require") {
            if is(rest, "(") {
                self.block = Some(true);
                proof {
                    now = GoScan { block: Some(true), ..now };
                }
            } else {
                self.add_require(code, path, lines, Ghost(now));
                proof {
                    now = GoScan {
                        required: and(
                            now.required,
                            require_of(lines.bytes@, path@, code@, now.offset as int),
                        ),
                        ..now
                    };
                }
            }
        }
        if let Some(rest) = keyword_rest(trimmed, "replace") {
            if is(rest, "(") {
                self.block = Some(false);
            } else {
                self.add_replace(rest, Ghost(now));
            }
        }
    }

    fn directives(&mut self, code: &[char], Ghost(s): Ghost<GoScan>)
        requires
            old(self).at(s),
        ensures
            final(self).at(directive_step(s, code@)),
    {
        let trimmed = trim(code, Class::Space);
        // Declaration and version are the same token: `go 1.21` names no
        // package, so pointing at the keyword would underline nothing.
        if let Some((value, column)) = directive_value(code, trimmed, "go ") {
            self.go = Some((string(value), self.offset.saturating_add(column)));
        }
        if let Some((value, column)) = directive_value(code, trimmed, "toolchain ") {
            let most: usize = value.len();
            let prefix: usize = if starts_with(value, "go") { 2 } else { 0 };
            let at: usize = self.offset.saturating_add(column).saturating_add(prefix);
            self.toolchain = Some((string(version_of_toolchain(value)), at));
        }
    }

    fn outside(&mut self, code: &[char], path: &str, lines: &LineIndex, Ghost(s): Ghost<GoScan>)
        requires
            lines.wf(),
            old(self).at(s),
        ensures
            final(self).at(plain_step(lines.bytes@, path@, s, code@)),
    {
        self.keywords(code, path, lines, Ghost(s));
        self.directives(code, Ghost(keyword_step(lines.bytes@, path@, s, code@)));
    }

    fn line(&mut self, line: &[char], path: &str, lines: &LineIndex, Ghost(s): Ghost<GoScan>)
        requires
            lines.wf(),
            old(self).at(s),
        ensures
            final(self).at(scan_step(lines.bytes@, path@, s, line@)),
    {
        let text = code(line);
        match self.block {
            Some(is_require) => self.in_block(text, is_require, path, lines, Ghost(s)),
            None => self.outside(text, path, lines, Ghost(s)),
        }
        self.offset = self.offset.saturating_add(byte_len(line));
    }
}

fn find_applicable(replaces: &Vec<Replace>, found: &ExtractedPackage) -> (r: Option<usize>)
    ensures
        match r {
            Some(i) => i < replaces@.len() && applicable(
                replaces.deep_view(),
                found.deep_view(),
            ) == Some(replaces@[i as int].deep_view()),
            None => applicable(replaces.deep_view(), found.deep_view()) is None,
        },
{
    let ghost all = replaces.deep_view();
    let mut i: usize = 0;
    proof {
        assert(all.skip(0) =~= all);
    }
    while i < replaces.len()
        invariant
            i <= replaces@.len(),
            all == replaces.deep_view(),
            applicable(all, found.deep_view()) == applicable(
                all.skip(i as int),
                found.deep_view(),
            ),
        decreases replaces@.len() - i,
    {
        let r = &replaces[i];
        proof {
            assert(all.skip(i as int)[0] == r.deep_view());
            assert(all.skip(i as int).skip(1) =~= all.skip(i + 1));
        }
        let version_fits = match &r.old_version {
            Some(v) => same(v.as_str(), found.package.version.as_str()),
            None => true,
        };
        if same(r.old.as_str(), found.package.name()) && version_fits {
            return Some(i);
        }
        i += 1;
    }
    None
}

fn apply(replaces: &Vec<Replace>, found: &ExtractedPackage, path: &str) -> (r: Option<
    ExtractedPackage,
>)
    ensures
        r.deep_view() == replaced(replaces.deep_view(), found.deep_view(), path@),
{
    match find_applicable(replaces, found) {
        None => Some(found.copy()),
        Some(i) => match &replaces[i].new {
            None => None,
            Some(new) => {
                let groups: Vec<String> = Vec::new();
                proof {
                    assert(groups.deep_view() =~= seq![]);
                }
                Some(
                    sighting(
                        Ecosystem::Go,
                        new.0.as_str(),
                        new.1.as_str(),
                        path,
                        found.evidence.range,
                        groups,
                        false,
                    ),
                )
            },
        },
    }
}

fn push_toolchain(
    out: &mut Vec<ExtractedPackage>,
    version: &str,
    at: usize,
    path: &str,
    lines: &LineIndex,
    Ghost(place): Ghost<int>,
)
    requires
        lines.wf(),
        place >= 0,
        at == clamp(place),
    ensures
        final(out).deep_view() == old(out).deep_view().push(
            toolchain_of(lines.bytes@, path@, version@, place),
        ),
{
    let ghost before = out.deep_view();
    let text = chars(version);
    let where_at = span(lines, at, byte_len(text.as_slice()));
    let groups: Vec<String> = Vec::new();
    proof {
        assert(groups.deep_view() =~= seq![]);
    }
    let found = sighting(
        Ecosystem::Go,
        GO_TOOLCHAIN,
        version,
        path,
        where_at,
        groups,
        false,
    ).with_version_span(Some(where_at));
    out.push(found);
    proof {
        assert(out.deep_view() =~= before.push(found.deep_view()));
    }
}

/// Dependencies declared in a `go.mod`.
///
/// The toolchain is reported too, against the `toolchain` directive when there
/// is one and the `go` directive otherwise. The latter is a *minimum*, not the
/// toolchain in use.
///
/// `replace` directives are applied: the build uses the replacement, so
/// matching the replaced module would report advisories against code that is not
/// there and miss the ones that are. A replacement by filesystem path has no
/// version to look up, and drops the module.
pub fn go_mod(src: &str, path: &str) -> (r: Vec<ExtractedPackage>)
    ensures
        r.deep_view() == go_mod_of(src@, path@),
{
    let index = LineIndex::new(src);
    let ghost bytes = encode_utf8(src@);
    let all = chars(src);
    let file = lines(all.as_slice());
    let ghost text = file.deep_view();
    let mut reader = Reader {
        offset: 0,
        block: None,
        required: Vec::new(),
        replaces: Vec::new(),
        go: None,
        toolchain: None,
    };
    let mut i: usize = 0;
    proof {
        assert(reader.required.deep_view() =~= seq![]);
        assert(reader.replaces.deep_view() =~= seq![]);
    }
    while i < file.len()
        invariant
            i <= file@.len(),
            index.wf(),
            index.bytes@ == bytes,
            text == file.deep_view(),
            reader.at(scan_of(bytes, path@, text.take(i as int))),
        decreases file@.len() - i,
    {
        let ghost s = scan_of(bytes, path@, text.take(i as int));
        proof {
            assert(text.take(i + 1).drop_last() =~= text.take(i as int));
            assert(text.take(i + 1).last() =~= file@[i as int]@);
        }
        reader.line(file[i].as_slice(), path, &index, Ghost(s));
        i += 1;
    }
    let ghost s = scan_of(bytes, path@, text);
    proof {
        assert(text.take(i as int) =~= text);
    }
    let mut out: Vec<ExtractedPackage> = Vec::new();
    let mut j: usize = 0;
    proof {
        assert(out.deep_view() =~= seq![]);
    }
    while j < reader.required.len()
        invariant
            j <= reader.required@.len(),
            reader.at(s),
            out.deep_view() == all_replaced(s.replaces, s.required.take(j as int), path@),
        decreases reader.required@.len() - j,
    {
        let ghost before = out.deep_view();
        proof {
            assert(s.required.take(j + 1).drop_last() =~= s.required.take(j as int));
            assert(s.required.take(j + 1).last() == reader.required@[j as int].deep_view());
        }
        match apply(&reader.replaces, &reader.required[j], path) {
            Some(found) => {
                out.push(found);
                proof {
                    assert(out.deep_view() =~= before.push(found.deep_view()));
                }
            },
            None => {},
        }
        j += 1;
    }
    proof {
        assert(s.required.take(j as int) =~= s.required);
    }
    match &reader.toolchain {
        Some(t) => push_toolchain(
            &mut out,
            t.0.as_str(),
            t.1,
            path,
            &index,
            Ghost(s.toolchain->Some_0.1),
        ),
        None => match &reader.go {
            Some(t) => push_toolchain(
                &mut out,
                t.0.as_str(),
                t.1,
                path,
                &index,
                Ghost(s.go->Some_0.1),
            ),
            None => {},
        },
    }
    out
}

// ---- laws ----

/// A replacement by filesystem path drops the module; every other one puts its
/// own name and version in place; and without one the module stays.
pub proof fn replacements_are_applied(
    replaces: Seq<ReplaceView>,
    found: ExtractedView,
    path: Seq<char>,
)
    ensures
        applicable(replaces, found) is None ==> replaced(replaces, found, path) == Some(found),
        applicable(replaces, found) is Some && applicable(replaces, found)->Some_0.new is None
            ==> replaced(replaces, found, path) is None,
        applicable(replaces, found) is Some && applicable(replaces, found)->Some_0.new is Some
            ==> {
            let new = applicable(replaces, found)->Some_0.new->Some_0;
            let r = replaced(replaces, found, path);
            &&& r is Some
            &&& r->Some_0.package.key.name == new.0
            &&& r->Some_0.package.version == new.1
            &&& r->Some_0.evidence.range == found.evidence.range
        },
{
}

/// Every sighting is in the file that was read, and of the Go ecosystem.
pub proof fn go_mod_reports_its_own_file(src: Seq<char>, path: Seq<char>)
    ensures
        forall|i: int|
            0 <= i < go_mod_of(src, path).len() ==> {
                let found = #[trigger] go_mod_of(src, path)[i];
                found.evidence.path == path && found.package.key.ecosystem == Ecosystem::Go
            },
{
    let bytes = encode_utf8(src);
    let s = scan_of(bytes, path, lines_of(src));
    lemma_scan_sites(bytes, path, lines_of(src));
    lemma_replaced_sites(s.replaces, s.required, path);
}

spec fn here(found: Seq<ExtractedView>, path: Seq<char>) -> bool {
    forall|i: int|
        0 <= i < found.len() ==> {
            &&& (#[trigger] found[i]).evidence.path == path
            &&& found[i].package.key.ecosystem == Ecosystem::Go
        }
}

proof fn lemma_scan_sites(bytes: Seq<u8>, path: Seq<char>, file: Seq<Seq<char>>)
    ensures
        here(scan_of(bytes, path, file).required, path),
    decreases file.len(),
{
    if file.len() > 0 {
        lemma_scan_sites(bytes, path, file.drop_last());
        let s = scan_of(bytes, path, file.drop_last());
        let code = code_of(file.last());
        let more = require_of(bytes, path, code, s.offset as int);
        let after = scan_of(bytes, path, file).required;
        assert(after == s.required || after == and(s.required, more));
        assert forall|i: int| 0 <= i < after.len() implies {
            &&& (#[trigger] after[i]).evidence.path == path
            &&& after[i].package.key.ecosystem == Ecosystem::Go
        } by {
            if i < s.required.len() {
                assert(after[i] == s.required[i]);
            }
        }
    }
}

proof fn lemma_replaced_sites(
    replaces: Seq<ReplaceView>,
    found: Seq<ExtractedView>,
    path: Seq<char>,
)
    requires
        here(found, path),
    ensures
        here(all_replaced(replaces, found, path), path),
    decreases found.len(),
{
    if found.len() > 0 {
        let front = found.drop_last();
        assert forall|i: int| 0 <= i < front.len() implies {
            &&& (#[trigger] front[i]).evidence.path == path
            &&& front[i].package.key.ecosystem == Ecosystem::Go
        } by {
            assert(front[i] == found[i]);
        }
        lemma_replaced_sites(replaces, front, path);
        let kept = all_replaced(replaces, front, path);
        let out = all_replaced(replaces, found, path);
        assert(found[found.len() - 1] == found.last());
        assert forall|i: int| 0 <= i < out.len() implies {
            &&& (#[trigger] out[i]).evidence.path == path
            &&& out[i].package.key.ecosystem == Ecosystem::Go
        } by {
            if i < kept.len() {
                assert(out[i] == kept[i]);
            }
        }
    }
}

} // verus!
