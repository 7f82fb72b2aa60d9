//! What a `go.mod` that is written down is read as.
use crate::laws::reports::{gist, gists, lemma_gists_push, reported, Gist};
use crate::laws::writing::{
    each_line, file, lacks, lemma_before, lemma_file, lemma_find_first, lemma_find_none,
    lemma_found, lemma_lines_concat, lemma_no_word, lemma_one_line, lemma_trim_back,
    lemma_trim_front, lemma_trimmed, lemma_word_blank, lemma_word_first, line, unspaced,
    whole_lines,
};
use crate::manifest::go::{
    after_keyword, all_replaced, and, applicable, bare, code_of, directive, directive_step,
    go_mod_of, keyword_step, replace_of, replaced, require_body, require_of, scan_of, scan_step,
    toolchain_of, toolchain_version, GoScan, ReplaceView,
};
use crate::model::{Ecosystem, ExtractedView};
use crate::text::{before, is_space, lines_of, trim_of, trim_start_of, word, Class};
use vstd::prelude::*;
use vstd::utf8::encode_utf8;

verus! {

// ---- what is written ----

/// Whether a text holds no comment.
pub open spec fn uncommented(s: Seq<char>) -> bool {
    forall|i: int| 0 <= i < s.len() - 1 ==> !(#[trigger] s[i] == '/' && s[i + 1] == '/')
}

/// Whether a text can be a module or a version: one word, without a comment.
pub open spec fn plain(s: Seq<char>) -> bool {
    s.len() > 0 && unspaced(s) && lacks(s, '=') && uncommented(s) && s != "("@
}

/// A version with the `v` in front that the file writes, where there is one.
pub open spec fn at(version: Option<Seq<char>>) -> Seq<char> {
    match version {
        Some(v) => " v"@ + v,
        None => seq![],
    }
}

/// One line of a `go.mod`.
pub enum Directive {
    Require { module: Seq<char>, version: Seq<char> },
    /// A version of a module, or all, is built from another at a version, or
    /// from a directory.
    Replace {
        old: Seq<char>,
        old_version: Option<Seq<char>>,
        new: Seq<char>,
        new_version: Option<Seq<char>>,
    },
    Go(Seq<char>),
    /// A toolchain, and what a custom build adds to its name.
    Toolchain(Seq<char>, Option<Seq<char>>),
    Other(Seq<char>),
}

impl Directive {
    pub open spec fn text(self) -> Seq<char> {
        match self {
            Directive::Require { module, version } => "require "@ + module + at(Some(version)),
            Directive::Replace { old, old_version, new, new_version } => "replace "@ + old + at(
                old_version,
            ) + " => "@ + new + at(new_version),
            Directive::Go(version) => "go "@ + version,
            Directive::Toolchain(version, custom) => "toolchain go"@ + version + (match custom {
                Some(c) => "-"@ + c,
                None => seq![],
            }),
            Directive::Other(text) => text,
        }
    }

    pub open spec fn wf(self) -> bool {
        match self {
            Directive::Require { module, version } => plain(module) && plain(version)
                && version[0] != '/',
            Directive::Replace { old, old_version, new, new_version } => {
                &&& plain(old) && plain(new)
                &&& old_version matches Some(v) ==> plain(v) && v[0] != '/'
                &&& new_version matches Some(v) ==> plain(v) && v[0] != '/'
            },
            Directive::Go(version) => plain(version) && version[0] != '/',
            Directive::Toolchain(version, custom) => {
                &&& plain(version) && lacks(version, '-') && lacks(version, '/')
                &&& custom matches Some(c) ==> plain(c) && c[0] != '/'
            },
            Directive::Other(text) => {
                &&& lacks(text, '\n')
                &&& text.len() > 0 ==> !is_space(text[0]) && text[0] != 'r' && text[0] != 'g'
                    && text[0] != 't'
            },
        }
    }
}

pub open spec fn texts(all: Seq<Directive>) -> Seq<Seq<char>> {
    Seq::new(all.len(), |i: int| all[i].text())
}

pub open spec fn all_wf(all: Seq<Directive>) -> bool {
    forall|i: int| 0 <= i < all.len() ==> (#[trigger] all[i]).wf()
}

// ---- what is meant ----

/// What a module at a version is built from: the first replacement in the file
/// that names it, for every version or for this one.
pub open spec fn standing_for(
    all: Seq<Directive>,
    module: Seq<char>,
    version: Seq<char>,
) -> Option<(Seq<char>, Option<Seq<char>>)>
    decreases all.len(),
{
    if all.len() == 0 {
        None
    } else {
        match all[0] {
            Directive::Replace { old, old_version, new, new_version } => if old == module && (
            old_version is None || old_version == Some(version)) {
                Some((new, new_version))
            } else {
                standing_for(all.skip(1), module, version)
            },
            _ => standing_for(all.skip(1), module, version),
        }
    }
}

/// The modules that the first lines of a file ask for, each as what it is built
/// from; what is built from a directory has no version to look up.
pub open spec fn modules(all: Seq<Directive>, n: nat, path: Seq<char>) -> Seq<Gist>
    decreases n,
{
    if n == 0 {
        seq![]
    } else {
        let before = modules(all, (n - 1) as nat, path);
        match all[n - 1] {
            Directive::Require { module, version } => match standing_for(all, module, version) {
                None => before.push(
                    reported(Ecosystem::Go, module, version, path, seq![], false),
                ),
                Some((new, Some(v))) => before.push(
                    reported(Ecosystem::Go, new, v, path, seq![], false),
                ),
                Some((_, None)) => before,
            },
            _ => before,
        }
    }
}

/// The version that the last toolchain of a file names.
pub open spec fn last_toolchain(all: Seq<Directive>) -> Option<Seq<char>>
    decreases all.len(),
{
    if all.len() == 0 {
        None
    } else {
        match all.last() {
            Directive::Toolchain(v, _) => Some(v),
            _ => last_toolchain(all.drop_last()),
        }
    }
}

pub open spec fn last_go(all: Seq<Directive>) -> Option<Seq<char>>
    decreases all.len(),
{
    if all.len() == 0 {
        None
    } else {
        match all.last() {
            Directive::Go(v) => Some(v),
            _ => last_go(all.drop_last()),
        }
    }
}

/// What a file builds with: its toolchain, else the version it asks for.
pub open spec fn builder(all: Seq<Directive>, path: Seq<char>) -> Seq<Gist> {
    let version = match last_toolchain(all) {
        Some(v) => Some(v),
        None => last_go(all),
    };
    match version {
        Some(v) => seq![reported(Ecosystem::Go, "stdlib"@, v, path, seq![], false)],
        None => seq![],
    }
}

// ---- one line ----

proof fn lemma_uncommented_add(a: Seq<char>, b: Seq<char>)
    requires
        uncommented(a),
        uncommented(b),
        a.len() > 0 && b.len() > 0 ==> a.last() != '/' || b[0] != '/',
    ensures
        uncommented(a + b),
{
    let s = a + b;
    assert forall|i: int| 0 <= i < s.len() - 1 implies !(#[trigger] s[i] == '/' && s[i + 1]
        == '/') by {
        if i < a.len() - 1 {
            assert(s[i] == a[i] && s[i + 1] == a[i + 1]);
        } else if i >= a.len() {
            assert(s[i] == b[i - a.len()] && s[i + 1] == b[i + 1 - a.len()]);
        } else {
            assert(s[i] == a[i] && s[i + 1] == b[0]);
        }
    }
}

/// A line without a comment is all code.
proof fn lemma_code(s: Seq<char>)
    requires
        uncommented(s),
        s.len() > 0 ==> !is_space(s[s.len() - 1]),
    ensures
        code_of(line(s)) == s,
{
    let l = line(s);
    reveal_strlit("//");
    assert forall|j: int| 0 <= j && j + "//"@.len() <= l.len() implies #[trigger] l.subrange(
        j,
        j + "//"@.len(),
    ) != "//"@ by {
        let part = l.subrange(j, j + "//"@.len());
        if part == "//"@ {
            assert(part[0] == '/' && part[1] == '/');
            assert(l[j] == '/' && l[j + 1] == '/');
            assert(s[j] == '/' && s[j + 1] == '/');
        }
    }
    lemma_find_none(l, "//"@, 0);
    lemma_trim_back(s, seq!['\n'], Class::LineEnd);
}

proof fn lemma_at(version: Option<Seq<char>>)
    requires
        version matches Some(v) ==> plain(v) && v[0] != '/',
    ensures
        uncommented(at(version)),
        lacks(at(version), '='),
        lacks(at(version), '\n'),
        version is Some ==> at(version).len() > 2 && at(version)[0] == ' ' && !is_space(
            at(version).last(),
        ),
        version is None ==> at(version).len() == 0,
        version matches Some(v) ==> at(version) == seq![' '] + (seq!['v'] + v) && unspaced(
            seq!['v'] + v,
        ) && bare(seq!['v'] + v) == v,
{
    reveal_strlit(" v");
    if let Some(v) = version {
        lemma_uncommented_add(" v"@, v);
        let s = at(version);
        assert(s.last() == v[v.len() - 1]);
        assert forall|i: int| 0 <= i < s.len() implies #[trigger] s[i] != '=' && s[i] != '\n' by {
            if i >= 2 {
                assert(s[i] == v[i - 2]);
            }
        }
        assert(s =~= seq![' '] + (seq!['v'] + v));
        let w = seq!['v'] + v;
        assert forall|i: int| 0 <= i < w.len() implies !is_space(#[trigger] w[i]) by {
            if i >= 1 {
                assert(w[i] == v[i - 1]);
            }
        }
        assert(w.skip(1) =~= v);
    }
}

proof fn lemma_plain_end(s: Seq<char>)
    requires
        plain(s),
    ensures
        !is_space(s[0]),
        !is_space(s[s.len() - 1]),
        lacks(s, '\n'),
{
    assert forall|i: int| 0 <= i < s.len() implies #[trigger] s[i] != '\n' by {
        assert(!is_space(s[i]));
    }
}

/// The words of a module and a version.
proof fn lemma_module_at(module: Seq<char>, version: Option<Seq<char>>, gap: Seq<char>)
    requires
        plain(module),
        version matches Some(v) ==> plain(v) && v[0] != '/',
        gap == seq![' '] || gap.len() == 0,
    ensures
        ({
            let s = module + at(version) + gap;
            &&& word(s, 0) == Some(module)
            &&& word(s, 1) == (match version {
                Some(v) => Some(seq!['v'] + v),
                None => None,
            })
        }),
{
    lemma_at(version);
    let s = module + at(version) + gap;
    let behind = at(version) + gap;
    assert(s =~= module + behind);
    assert(is_space(' '));
    if behind.len() > 0 {
        assert(behind[0] == ' ');
    }
    lemma_word_first(module, behind, 0);
    match version {
        Some(v) => {
            let w = seq!['v'] + v;
            assert(behind =~= seq![' '] + (w + gap));
            lemma_word_blank(seq![' '], w + gap, 0);
            lemma_word_first(w, gap, 0);
        },
        None => {
            assert(behind =~= gap);
            lemma_no_word(gap, 0);
        },
    }
}

proof fn lemma_require_text(module: Seq<char>, version: Seq<char>)
    requires
        plain(module),
        plain(version),
        version[0] != '/',
    ensures
        ({
            let s = "require "@ + module + at(Some(version));
            &&& uncommented(s) && lacks(s, '\n')
            &&& s[0] == 'r' && !is_space(s[s.len() - 1])
            &&& after_keyword(s, "require"@) == Some(module + at(Some(version)))
            &&& after_keyword(s, "replace"@) is None
            &&& require_body(s) == module + at(Some(version))
        }),
{
    reveal_strlit("require ");
    reveal_strlit("require");
    reveal_strlit("replace");
    lemma_at(Some(version));
    lemma_plain_end(module);
    let rest = module + at(Some(version));
    let s = "require "@ + module + at(Some(version));
    assert(s =~= "require "@ + rest);
    lemma_uncommented_add(module, at(Some(version)));
    lemma_uncommented_add("require "@, rest);
    assert(s[s.len() - 1] == at(Some(version)).last());
    assert forall|i: int| 0 <= i < s.len() implies #[trigger] s[i] != '\n' by {
        if i >= 8 && i < 8 + module.len() {
            assert(s[i] == module[i - 8]);
        } else if i >= 8 {
            assert(s[i] == at(Some(version))[i - 8 - module.len()]);
        }
    }
    assert("require"@.is_prefix_of(s)) by {
        assert(s.take(7) =~= "require"@);
    }
    assert(s.skip(7) =~= seq![' '] + rest);
    assert(is_space(' '));
    assert(rest[0] == module[0]);
    lemma_trim_front(seq![' '], rest, Class::Space);
    assert(s[2] == 'q');
    assert("replace"@[2] == 'p');
    assert(!"replace"@.is_prefix_of(s));
    lemma_trimmed(s, Class::Space);
}

/// What a scan has seen, apart from places.
pub open spec fn similar(s: GoScan, t: GoScan) -> bool {
    &&& s.block == t.block
    &&& gists(s.required) == gists(t.required)
    &&& s.replaces == t.replaces
    &&& match (s.go, t.go) {
        (Some(a), Some(b)) => a.0 == b.0,
        (None, None) => true,
        _ => false,
    }
    &&& match (s.toolchain, t.toolchain) {
        (Some(a), Some(b)) => a.0 == b.0,
        (None, None) => true,
        _ => false,
    }
}

proof fn lemma_no_directive(s: GoScan, code: Seq<char>)
    requires
        code.len() > 0,
        code[0] == 'r',
        !is_space(code[code.len() - 1]),
    ensures
        directive_step(s, code) == s,
{
    lemma_trimmed(code, Class::Space);
    reveal_strlit("go ");
    reveal_strlit("toolchain ");
    assert("go "@[0] == 'g');
    assert("toolchain "@[0] == 't');
    assert(!"go "@.is_prefix_of(code));
    assert(!"toolchain "@.is_prefix_of(code));
}

proof fn lemma_require_entry(
    bytes: Seq<u8>,
    path: Seq<char>,
    code: Seq<char>,
    start: int,
    module: Seq<char>,
    version: Seq<char>,
)
    requires
        plain(module),
        plain(version),
        version[0] != '/',
        require_body(code) == module + at(Some(version)),
        exists|i: int|
            0 <= i && i + module.len() <= code.len() && #[trigger] code.subrange(
                i,
                i + module.len(),
            ) == module,
    ensures
        require_of(bytes, path, code, start) matches Some(x) && gist(x) == reported(
            Ecosystem::Go,
            module,
            version,
            path,
            seq![],
            false,
        ),
{
    lemma_at(Some(version));
    lemma_module_at(module, Some(version), seq![]);
    let body = module + at(Some(version));
    assert(body + Seq::<char>::empty() =~= body);
    let w = seq!['v'] + version;
    assert(w[0] == 'v');
    assert(w.skip(1) =~= version);
    let i = choose|i: int|
        0 <= i && i + module.len() <= code.len() && #[trigger] code.subrange(
            i,
            i + module.len(),
        ) == module;
    lemma_found(code, module, 0, i as nat);
}

proof fn lemma_require_line(
    bytes: Seq<u8>,
    path: Seq<char>,
    s: GoScan,
    module: Seq<char>,
    version: Seq<char>,
)
    requires
        s.block is None,
        plain(module),
        plain(version),
        version[0] != '/',
    ensures
        ({
            let text = "require "@ + module + at(Some(version));
            let t = scan_step(bytes, path, s, line(text));
            &&& t.block is None && t.replaces == s.replaces && t.go == s.go && t.toolchain
                == s.toolchain
            &&& gists(t.required) == gists(s.required).push(
                reported(Ecosystem::Go, module, version, path, seq![], false),
            )
        }),
{
    let text = "require "@ + module + at(Some(version));
    let rest = module + at(Some(version));
    lemma_require_text(module, version);
    lemma_code(text);
    lemma_trimmed(text, Class::Space);
    lemma_at(Some(version));
    reveal_strlit("(");
    assert(rest != "("@) by {
        assert(rest.len() > 1);
    }
    reveal_strlit("require ");
    assert(text.subrange(8, 8 + module.len() as int) =~= module);
    lemma_require_entry(bytes, path, text, s.offset as int, module, version);
    let x = require_of(bytes, path, text, s.offset as int)->Some_0;
    lemma_gists_push(s.required, x);
    let k = keyword_step(bytes, path, s, text);
    assert(k.required == s.required.push(x));
    lemma_no_directive(k, text);
}

proof fn lemma_replace_text(
    old: Seq<char>,
    old_version: Option<Seq<char>>,
    new: Seq<char>,
    new_version: Option<Seq<char>>,
)
    requires
        (Directive::Replace { old, old_version, new, new_version }).wf(),
    ensures
        ({
            let d = Directive::Replace { old, old_version, new, new_version };
            let s = d.text();
            let rest = old + at(old_version) + " => "@ + new + at(new_version);
            &&& uncommented(s) && lacks(s, '\n')
            &&& s[0] == 'r' && !is_space(s[s.len() - 1])
            &&& after_keyword(s, "replace"@) == Some(rest)
            &&& after_keyword(s, "require"@) is None
            &&& rest != "("@
        }),
{
    reveal_strlit("replace ");
    reveal_strlit("require");
    reveal_strlit("replace");
    reveal_strlit(" => ");
    reveal_strlit("(");
    lemma_at(old_version);
    lemma_at(new_version);
    lemma_plain_end(old);
    lemma_plain_end(new);
    let (a, b) = (at(old_version), at(new_version));
    let rest = old + a + " => "@ + new + b;
    let s = (Directive::Replace { old, old_version, new, new_version }).text();
    assert(s =~= "replace "@ + rest);
    let p1 = old + a;
    lemma_uncommented_add(old, a);
    lemma_uncommented_add(p1, " => "@);
    lemma_uncommented_add(p1 + " => "@, new);
    assert((p1 + " => "@).last() == ' ');
    let p2 = p1 + " => "@ + new;
    assert(p2.last() == new.last());
    lemma_uncommented_add(p2, b);
    assert(p2 + b =~= rest);
    lemma_uncommented_add("replace "@, rest);
    assert(s[s.len() - 1] == (if b.len() > 0 {
        b.last()
    } else {
        new.last()
    }));
    assert forall|i: int| 0 <= i < s.len() implies #[trigger] s[i] != '\n' by {
        let n1 = 8 + old.len();
        let n2 = n1 + a.len();
        let n3 = n2 + 4;
        let n4 = n3 + new.len();
        if i < 8 {
        } else if i < n1 {
            assert(s[i] == old[i - 8]);
        } else if i < n2 {
            assert(s[i] == a[i - n1]);
        } else if i < n3 {
            assert(s[i] == " => "@[i - n2]);
        } else if i < n4 {
            assert(s[i] == new[i - n3]);
        } else {
            assert(s[i] == b[i - n4]);
        }
    }
    assert("replace"@.is_prefix_of(s)) by {
        assert(s.take(7) =~= "replace"@);
    }
    assert(s.skip(7) =~= seq![' '] + rest);
    assert(is_space(' '));
    assert(rest[0] == old[0]);
    lemma_trim_front(seq![' '], rest, Class::Space);
    assert(s[2] == 'p');
    assert("require"@[2] == 'q');
    assert(!"require"@.is_prefix_of(s));
    assert(rest.len() > 1);
}

proof fn lemma_replace_body(
    old: Seq<char>,
    old_version: Option<Seq<char>>,
    new: Seq<char>,
    new_version: Option<Seq<char>>,
)
    requires
        (Directive::Replace { old, old_version, new, new_version }).wf(),
    ensures
        replace_of(old + at(old_version) + " => "@ + new + at(new_version)) == Some(
            ReplaceView {
                old,
                old_version,
                new: match new_version {
                    Some(v) => Some((new, v)),
                    None => None,
                },
            },
        ),
{
    reveal_strlit(" => ");
    reveal_strlit("=>");
    lemma_at(old_version);
    lemma_at(new_version);
    let (a, b) = (at(old_version), at(new_version));
    let body = old + a + " => "@ + new + b;
    let left = old + a + seq![' '];
    let right = seq![' '] + (new + b);
    let n = left.len();
    assert(body =~= left + "=>"@ + right);
    assert(body.subrange(n as int, (n + 2) as int) =~= "=>"@);
    assert forall|j: int| 0 <= j < n implies #[trigger] body.subrange(j, j + "=>"@.len())
        != "=>"@ by {
        let part = body.subrange(j, j + "=>"@.len());
        assert(part[0] == left[j]);
        if j < old.len() {
            assert(left[j] == old[j]);
        } else if j < old.len() + a.len() {
            assert(left[j] == a[j - old.len()]);
        } else {
            assert(left[j] == ' ');
        }
        assert("=>"@[0] == '=');
    }
    lemma_find_first(body, "=>"@, 0, n);
    assert(body.take(n as int) =~= left);
    assert(body.skip(n as int + 2) =~= right);
    lemma_module_at(old, old_version, seq![' ']);
    assert(is_space(' '));
    lemma_word_blank(seq![' '], new + b, 0);
    lemma_word_blank(seq![' '], new + b, 1);
    lemma_module_at(new, new_version, seq![]);
    assert(new + b + Seq::<char>::empty() =~= new + b);
}

proof fn lemma_replace_line(
    bytes: Seq<u8>,
    path: Seq<char>,
    s: GoScan,
    old: Seq<char>,
    old_version: Option<Seq<char>>,
    new: Seq<char>,
    new_version: Option<Seq<char>>,
)
    requires
        s.block is None,
        (Directive::Replace { old, old_version, new, new_version }).wf(),
    ensures
        ({
            let text = (Directive::Replace { old, old_version, new, new_version }).text();
            let t = scan_step(bytes, path, s, line(text));
            &&& t.block is None && t.required == s.required && t.go == s.go && t.toolchain
                == s.toolchain
            &&& t.replaces == s.replaces.push(
                ReplaceView {
                    old,
                    old_version,
                    new: match new_version {
                        Some(v) => Some((new, v)),
                        None => None,
                    },
                },
            )
        }),
{
    let text = (Directive::Replace { old, old_version, new, new_version }).text();
    lemma_replace_text(old, old_version, new, new_version);
    lemma_replace_body(old, old_version, new, new_version);
    lemma_code(text);
    lemma_trimmed(text, Class::Space);
    let k = keyword_step(bytes, path, s, text);
    lemma_no_directive(k, text);
}

/// What is left of a line begins as the line does.
proof fn lemma_begins(text: Seq<char>)
    requires
        lacks(text, '\n'),
        text.len() > 0 ==> !is_space(text[0]),
    ensures
        ({
            let trimmed = trim_of(code_of(line(text)), Class::Space);
            trimmed.len() > 0 ==> text.len() > 0 && trimmed[0] == text[0]
        }),
{
    let l = line(text);
    let c = code_of(l);
    crate::text::lemma_find(l, "//"@, 0);
    crate::text::lemma_trailing_is(l, Class::LineEnd);
    assert(c.len() <= l.len() && forall|i: int| 0 <= i < c.len() ==> c[i] == l[i]);
    if text.len() == 0 {
        reveal_strlit("//");
        assert(l =~= seq!['\n']);
        lemma_find_none(l, "//"@, 0);
        lemma_trim_back(seq![], seq!['\n'], Class::LineEnd);
        assert(seq![] + seq!['\n'] =~= l);
        assert(c =~= seq![]);
        lemma_trimmed(c, Class::Space);
    } else if c.len() > 0 {
        assert(c[0] == text[0]);
        lemma_trim_front(seq![], c, Class::Space);
        assert(seq![] + c =~= c);
        crate::text::lemma_trailing_is(c, Class::Space);
    } else {
        lemma_trimmed(c, Class::Space);
    }
}

proof fn lemma_other_line(bytes: Seq<u8>, path: Seq<char>, s: GoScan, text: Seq<char>)
    requires
        s.block is None,
        (Directive::Other(text)).wf(),
    ensures
        ({
            let t = scan_step(bytes, path, s, line(text));
            &&& t.block is None && t.required == s.required && t.replaces == s.replaces
            &&& t.go == s.go && t.toolchain == s.toolchain
        }),
{
    lemma_begins(text);
    reveal_strlit("require");
    reveal_strlit("replace");
    reveal_strlit("go ");
    reveal_strlit("toolchain ");
    let trimmed = trim_of(code_of(line(text)), Class::Space);
    assert("require"@[0] == 'r' && "replace"@[0] == 'r' && "go "@[0] == 'g' && "toolchain "@[0]
        == 't');
    assert(!"require"@.is_prefix_of(trimmed));
    assert(!"replace"@.is_prefix_of(trimmed));
    assert(!"go "@.is_prefix_of(trimmed));
    assert(!"toolchain "@.is_prefix_of(trimmed));
}

proof fn lemma_value(code: Seq<char>, keyword: Seq<char>, value: Seq<char>)
    requires
        code == keyword + value,
        value.len() > 0,
        !is_space(value[0]),
        !is_space(value[value.len() - 1]),
    ensures
        directive(code, code, keyword) matches Some((v, _)) && v == value,
{
    assert(code.take(keyword.len() as int) =~= keyword);
    assert(keyword.is_prefix_of(code));
    assert(code.skip(keyword.len() as int) =~= value);
    lemma_trimmed(value, Class::Space);
    assert(code.subrange(keyword.len() as int, (keyword.len() + value.len()) as int) =~= value);
    lemma_found(code, value, 0, keyword.len());
}

proof fn lemma_go_line(bytes: Seq<u8>, path: Seq<char>, s: GoScan, version: Seq<char>)
    requires
        s.block is None,
        (Directive::Go(version)).wf(),
    ensures
        ({
            let t = scan_step(bytes, path, s, line((Directive::Go(version)).text()));
            &&& t.block is None && t.required == s.required && t.replaces == s.replaces
            &&& t.go is Some && t.go->Some_0.0 == version && t.toolchain == s.toolchain
        }),
{
    reveal_strlit("require");
    reveal_strlit("replace");
    reveal_strlit("go ");
    reveal_strlit("toolchain ");
    let text = (Directive::Go(version)).text();
    lemma_plain_end(version);
    lemma_uncommented_add("go "@, version);
    assert(text[text.len() - 1] == version[version.len() - 1]);
    assert(text[0] == 'g');
    lemma_code(text);
    lemma_trimmed(text, Class::Space);
    assert("require"@[0] == 'r' && "replace"@[0] == 'r' && "toolchain "@[0] == 't');
    assert(!"require"@.is_prefix_of(text));
    assert(!"replace"@.is_prefix_of(text));
    assert(!"toolchain "@.is_prefix_of(text));
    lemma_value(text, "go "@, version);
}

proof fn lemma_toolchain_text(version: Seq<char>, custom: Option<Seq<char>>)
    requires
        (Directive::Toolchain(version, custom)).wf(),
    ensures
        ({
            let text = (Directive::Toolchain(version, custom)).text();
            let value = "go"@ + version + (match custom {
                Some(c) => "-"@ + c,
                None => seq![],
            });
            &&& text == "toolchain "@ + value
            &&& text[0] == 't'
            &&& uncommented(text)
            &&& !is_space(text[text.len() - 1])
            &&& value[0] == 'g' && value[value.len() - 1] == text[text.len() - 1]
        }),
{
    reveal_strlit("go");
    reveal_strlit("-");
    reveal_strlit("toolchain ");
    reveal_strlit("toolchain go");
    let text = (Directive::Toolchain(version, custom)).text();
    let tail = match custom {
        Some(c) => "-"@ + c,
        None => seq![],
    };
    lemma_plain_end(version);
    if let Some(c) = custom {
        lemma_plain_end(c);
        lemma_uncommented_add("-"@, c);
    }
    let value = "go"@ + version + tail;
    assert(text =~= "toolchain "@ + value);
    lemma_uncommented_add("toolchain go"@, version);
    assert(("toolchain go"@ + version).last() == version.last());
    lemma_uncommented_add("toolchain go"@ + version, tail);
    assert(text[text.len() - 1] == (if tail.len() > 0 {
        tail.last()
    } else {
        version.last()
    }));
    if let Some(c) = custom {
        assert(tail.last() == c[c.len() - 1]);
    }
}

proof fn lemma_toolchain_version(version: Seq<char>, custom: Option<Seq<char>>)
    requires
        (Directive::Toolchain(version, custom)).wf(),
    ensures
        toolchain_version("go"@ + version + (match custom {
            Some(c) => "-"@ + c,
            None => seq![],
        })) == version,
{
    reveal_strlit("go");
    reveal_strlit("-");
    let tail = match custom {
        Some(c) => "-"@ + c,
        None => seq![],
    };
    let head = "go"@ + version;
    assert forall|i: int| 0 <= i < head.len() implies !Class::One('-').has(#[trigger] head[i]) by {
        if i >= 2 {
            assert(head[i] == version[i - 2]);
        }
    }
    if tail.len() > 0 {
        assert(tail[0] == '-');
    }
    lemma_before(head, tail, Class::One('-'));
    assert(head.take(2) =~= "go"@);
    assert("go"@.is_prefix_of(head));
    assert(head.skip(2) =~= version);
}

proof fn lemma_toolchain_line(
    bytes: Seq<u8>,
    path: Seq<char>,
    s: GoScan,
    version: Seq<char>,
    custom: Option<Seq<char>>,
)
    requires
        s.block is None,
        (Directive::Toolchain(version, custom)).wf(),
    ensures
        ({
            let t = scan_step(
                bytes,
                path,
                s,
                line((Directive::Toolchain(version, custom)).text()),
            );
            &&& t.block is None && t.required == s.required && t.replaces == s.replaces
            &&& t.toolchain is Some && t.toolchain->Some_0.0 == version && t.go == s.go
        }),
{
    let text = (Directive::Toolchain(version, custom)).text();
    let value = "go"@ + version + (match custom {
        Some(c) => "-"@ + c,
        None => seq![],
    });
    lemma_toolchain_text(version, custom);
    lemma_toolchain_version(version, custom);
    lemma_code(text);
    lemma_trimmed(text, Class::Space);
    lemma_not_t(text);
    lemma_value(text, "toolchain "@, value);
}

proof fn lemma_not_t(text: Seq<char>)
    requires
        text.len() > 0,
        text[0] == 't',
    ensures
        !"require"@.is_prefix_of(text),
        !"replace"@.is_prefix_of(text),
        !"go "@.is_prefix_of(text),
{
    reveal_strlit("require");
    reveal_strlit("replace");
    reveal_strlit("go ");
    assert("require"@[0] == 'r' && "replace"@[0] == 'r' && "go "@[0] == 'g');
}

// ---- whole files ----

/// The replacements of a file, as they are kept.
pub open spec fn kept(all: Seq<Directive>) -> Seq<ReplaceView>
    decreases all.len(),
{
    if all.len() == 0 {
        seq![]
    } else {
        match all.last() {
            Directive::Replace { old, old_version, new, new_version } => kept(all.drop_last()).push(
                ReplaceView {
                    old,
                    old_version,
                    new: match new_version {
                        Some(v) => Some((new, v)),
                        None => None,
                    },
                },
            ),
            _ => kept(all.drop_last()),
        }
    }
}

/// The modules of a file, as they are asked for.
pub open spec fn asked_for(all: Seq<Directive>, path: Seq<char>) -> Seq<Gist>
    decreases all.len(),
{
    if all.len() == 0 {
        seq![]
    } else {
        match all.last() {
            Directive::Require { module, version } => asked_for(all.drop_last(), path).push(
                reported(Ecosystem::Go, module, version, path, seq![], false),
            ),
            _ => asked_for(all.drop_last(), path),
        }
    }
}

/// What a scan that is outside any block makes of some more lines.
proof fn lemma_scan_on(
    bytes: Seq<u8>,
    path: Seq<char>,
    before: Seq<Seq<char>>,
    all: Seq<Directive>,
)
    requires
        all_wf(all),
        scan_of(bytes, path, before).block is None,
    ensures
        ({
            let s = scan_of(bytes, path, before);
            let t = scan_of(bytes, path, before + each_line(texts(all)));
            &&& t.block is None
            &&& t.replaces == s.replaces + kept(all)
            &&& gists(t.required) == gists(s.required) + asked_for(all, path)
            &&& match last_go(all) {
                Some(v) => t.go is Some && t.go->Some_0.0 == v,
                None => t.go == s.go,
            }
            &&& match last_toolchain(all) {
                Some(v) => t.toolchain is Some && t.toolchain->Some_0.0 == v,
                None => t.toolchain == s.toolchain,
            }
        }),
    decreases all.len(),
{
    let ls = each_line(texts(all));
    let start = scan_of(bytes, path, before);
    if all.len() == 0 {
        assert(before + ls =~= before);
        assert(start.replaces + kept(all) =~= start.replaces);
        assert(gists(start.required) + asked_for(all, path) =~= gists(start.required));
    } else {
        let front = all.drop_last();
        assert(all_wf(front)) by {
            assert forall|i: int| 0 <= i < front.len() implies (#[trigger] front[i]).wf() by {
                assert(front[i] == all[i]);
            }
        }
        lemma_scan_on(bytes, path, before, front);
        assert((before + ls).drop_last() =~= before + each_line(texts(front)));
        assert((before + ls).last() == line(all.last().text()));
        let s = scan_of(bytes, path, before + each_line(texts(front)));
        assert(all[all.len() - 1].wf());
        match all.last() {
            Directive::Require { module, version } => {
                lemma_require_line(bytes, path, s, module, version);
                assert(gists(start.required) + asked_for(all, path) =~= (gists(start.required)
                    + asked_for(front, path)).push(
                    reported(Ecosystem::Go, module, version, path, seq![], false),
                ));
            },
            Directive::Replace { old, old_version, new, new_version } => {
                lemma_replace_line(bytes, path, s, old, old_version, new, new_version);
                assert(start.replaces + kept(all) =~= (start.replaces + kept(front)).push(
                    kept(all).last(),
                ));
            },
            Directive::Go(version) => {
                lemma_go_line(bytes, path, s, version);
            },
            Directive::Toolchain(version, custom) => {
                lemma_toolchain_line(bytes, path, s, version, custom);
            },
            Directive::Other(text) => {
                lemma_other_line(bytes, path, s, text);
            },
        }
    }
}

proof fn lemma_scan(bytes: Seq<u8>, path: Seq<char>, all: Seq<Directive>)
    requires
        all_wf(all),
    ensures
        ({
            let s = scan_of(bytes, path, each_line(texts(all)));
            &&& s.block is None
            &&& s.replaces == kept(all)
            &&& gists(s.required) == asked_for(all, path)
            &&& match s.go {
                Some(a) => last_go(all) == Some(a.0),
                None => last_go(all) is None,
            }
            &&& match s.toolchain {
                Some(a) => last_toolchain(all) == Some(a.0),
                None => last_toolchain(all) is None,
            }
        }),
{
    let none = Seq::<Seq<char>>::empty();
    lemma_scan_on(bytes, path, none, all);
    assert(none + each_line(texts(all)) =~= each_line(texts(all)));
    assert(Seq::<ReplaceView>::empty() + kept(all) =~= kept(all));
    assert(gists(Seq::<ExtractedView>::empty()) + asked_for(all, path) =~= asked_for(all, path));
}

/// The replacement that applies is the one that stands for the module.
proof fn lemma_applicable(all: Seq<Directive>, found: ExtractedView)
    ensures
        match (
            applicable(kept(all), found),
            standing_for(all, found.package.key.name, found.package.version),
        ) {
            (None, None) => true,
            (Some(r), Some((new, Some(v)))) => r.new == Some((new, v)),
            (Some(r), Some((new, None))) => r.new is None,
            _ => false,
        },
    decreases all.len(),
{
    let (name, version) = (found.package.key.name, found.package.version);
    if all.len() > 0 {
        let rest = all.skip(1);
        lemma_applicable(rest, found);
        lemma_kept_first(all);
        match all[0] {
            Directive::Replace { old, old_version, new, new_version } => {
                let r = ReplaceView {
                    old,
                    old_version,
                    new: match new_version {
                        Some(v) => Some((new, v)),
                        None => None,
                    },
                };
                assert(kept(all)[0] == r);
                assert(kept(all).skip(1) =~= kept(rest));
            },
            _ => {},
        }
    }
}

proof fn lemma_kept_first(all: Seq<Directive>)
    requires
        all.len() > 0,
    ensures
        kept(all) == kept(seq![all[0]]) + kept(all.skip(1)),
        all[0] is Replace ==> kept(seq![all[0]]).len() == 1 && kept(seq![all[0]])[0].old
            == all[0]->old && kept(seq![all[0]])[0].old_version == all[0]->old_version
            && kept(seq![all[0]])[0].new == (match all[0]->new_version {
            Some(v) => Some((all[0]->new, v)),
            None => None,
        }),
        !(all[0] is Replace) ==> kept(seq![all[0]]).len() == 0,
    decreases all.len(),
{
    let one = seq![all[0]];
    let none = Seq::<Directive>::empty();
    assert(one.drop_last() =~= none);
    assert(one.last() == all[0]);
    assert(kept(none) =~= seq![]);
    if all.len() == 1 {
        assert(all =~= one);
        assert(all.skip(1) =~= none);
        assert(kept(one) + kept(none) =~= kept(one));
    } else {
        let front = all.drop_last();
        lemma_kept_first(front);
        assert(front[0] == all[0]);
        assert(front.skip(1) =~= all.skip(1).drop_last());
        assert(all.skip(1).last() == all.last());
        assert(kept(all) =~= kept(one) + kept(all.skip(1)));
    }
}

/// What a required module at an index is reported as.
proof fn lemma_modules(all: Seq<Directive>, n: nat, found: Seq<ExtractedView>, path: Seq<char>)
    requires
        n <= all.len(),
        gists(found) == asked_for(all.take(n as int), path),
    ensures
        gists(all_replaced(kept(all), found, path)) == modules(all, n, path),
    decreases n,
{
    if n == 0 {
        assert(found.len() == gists(found).len());
        assert(gists(all_replaced(kept(all), found, path)) =~= modules(all, n, path));
    } else {
        let m = (n - 1) as nat;
        assert(all.take(n as int).drop_last() =~= all.take(m as int));
        assert(all.take(n as int).last() == all[m as int]);
        match all[m as int] {
            Directive::Require { module, version } => {
                assert(found.len() == gists(found).len());
                let front = found.drop_last();
                let x = found.last();
                assert(gist(x) == gists(found).last());
                assert(gists(front) =~= gists(found).drop_last());
                assert(asked_for(all.take(n as int), path).drop_last() =~= asked_for(
                    all.take(m as int),
                    path,
                ));
                lemma_modules(all, m, front, path);
                lemma_applicable(all, x);
                let before = all_replaced(kept(all), front, path);
                match replaced(kept(all), x, path) {
                    Some(y) => {
                        lemma_gists_push(before, y);
                    },
                    None => {},
                }
            },
            _ => {
                lemma_modules(all, m, found, path);
            },
        }
    }
}

/// What a `go.mod` asks for is reported as it is built: each required module,
/// in order, as the first replacement of it that names no version or the
/// required one, or as itself where there is none; nothing where it is built
/// from a directory. Then the toolchain, or else the version of Go.
pub proof fn a_go_mod_is_reported_as_it_is_built(all: Seq<Directive>, path: Seq<char>)
    requires
        all_wf(all),
    ensures
        gists(go_mod_of(file(texts(all)), path)) == modules(all, all.len(), path) + builder(
            all,
            path,
        ),
{
    let src = file(texts(all));
    let bytes = encode_utf8(src);
    lemma_texts(all);
    lemma_file(texts(all));
    lemma_scan(bytes, path, all);
    let s = scan_of(bytes, path, lines_of(src));
    assert(all.take(all.len() as int) =~= all);
    lemma_modules(all, all.len(), s.required, path);
    let found = all_replaced(s.replaces, s.required, path);
    reveal_strlit("stdlib");
    match (s.toolchain, s.go) {
        (Some((version, at)), _) => {
            lemma_gists_push(found, toolchain_of(bytes, path, version, at));
        },
        (None, Some((version, at))) => {
            lemma_gists_push(found, toolchain_of(bytes, path, version, at));
        },
        (None, None) => {},
    }
    assert(gists(go_mod_of(src, path)) =~= modules(all, all.len(), path) + builder(all, path));
}

proof fn lemma_texts(all: Seq<Directive>)
    requires
        all_wf(all),
    ensures
        forall|i: int| 0 <= i < texts(all).len() ==> lacks(#[trigger] texts(all)[i], '\n'),
{
    assert forall|i: int| 0 <= i < texts(all).len() implies lacks(#[trigger] texts(all)[i], '\n') by {
        lemma_text_inline(all[i]);
    }
}

proof fn lemma_text_inline(d: Directive)
    requires
        d.wf(),
    ensures
        lacks(d.text(), '\n'),
{
    match d {
        Directive::Require { module, version } => {
            lemma_require_text(module, version);
        },
        Directive::Replace { old, old_version, new, new_version } => {
            lemma_replace_text(old, old_version, new, new_version);
        },
        Directive::Go(version) => {
            reveal_strlit("go ");
            lemma_plain_end(version);
        },
        Directive::Toolchain(version, custom) => {
            reveal_strlit("toolchain go");
            reveal_strlit("-");
            lemma_plain_end(version);
            if let Some(c) = custom {
                lemma_plain_end(c);
            }
            let s = d.text();
            let n = 12 + version.len();
            assert forall|i: int| 0 <= i < s.len() implies #[trigger] s[i] != '\n' by {
                if 12 <= i < n {
                    assert(s[i] == version[i - 12]);
                } else if i > n {
                    assert(s[i] == custom->Some_0[i - n - 1]);
                }
            }
        },
        Directive::Other(text) => {},
    }
}

/// A module that a replacement names, for every version or for the one that is
/// required, is reported as the replacement where none before it names the
/// module; and nothing is reported under its own name, unless something else is
/// replaced by it.
pub proof fn a_replaced_module_is_reported_as_its_replacement(
    all: Seq<Directive>,
    path: Seq<char>,
    i: int,
    j: int,
)
    requires
        all_wf(all),
        0 <= i < all.len(),
        all[i] is Require,
        0 <= j < all.len(),
        all[j] is Replace,
        all[j]->old == all[i]->module,
        all[j]->old_version is None || all[j]->old_version == Some(all[i]->Require_version),
        forall|k: int|
            0 <= k < j && (#[trigger] all[k]) is Replace ==> all[k]->old != all[i]->module,
        all[j]->new_version is Some,
    ensures
        gists(go_mod_of(file(texts(all)), path)).contains(
            reported(
                Ecosystem::Go,
                all[j]->new,
                all[j]->new_version->Some_0,
                path,
                seq![],
                false,
            ),
        ),
        all[i]->module != "stdlib"@ && (forall|k: int|
            0 <= k < all.len() && (#[trigger] all[k]) is Replace ==> all[k]->new
                != all[i]->module) && (forall|k: int|
            0 <= k < all.len() && (#[trigger] all[k]) is Require && all[k]->module
                == all[i]->module ==> all[k]->Require_version == all[i]->Require_version)
            ==> forall|k: int|
            0 <= k < gists(go_mod_of(file(texts(all)), path)).len() ==> (#[trigger] gists(
                go_mod_of(file(texts(all)), path),
            )[k]).package.key.name != all[i]->module,
{
    let module = all[i]->module;
    let version = all[i]->Require_version;
    a_go_mod_is_reported_as_it_is_built(all, path);
    lemma_standing(all, module, version, j);
    let found = gists(go_mod_of(file(texts(all)), path));
    let first = modules(all, all.len(), path);
    lemma_reported(all, all.len(), path, i);
    let g = reported(
        Ecosystem::Go,
        all[j]->new,
        all[j]->new_version->Some_0,
        path,
        seq![],
        false,
    );
    let k = choose|k: int| 0 <= k < first.len() && first[k] == g;
    assert(found[k] == g);
    if module != "stdlib"@ && (forall|k: int|
        0 <= k < all.len() && (#[trigger] all[k]) is Replace ==> all[k]->new != module) && (forall|
        k: int,
    |
        0 <= k < all.len() && (#[trigger] all[k]) is Require && all[k]->module == module
            ==> all[k]->Require_version == version) {
        lemma_unreported(all, all.len(), path, module, version);
        assert forall|k: int| 0 <= k < found.len() implies (#[trigger] found[k]).package.key.name
            != module by {
            if k < first.len() {
                assert(found[k] == first[k]);
            } else {
                assert(found[k] == builder(all, path)[k - first.len()]);
            }
        }
    }
}

proof fn lemma_standing(all: Seq<Directive>, module: Seq<char>, version: Seq<char>, j: int)
    requires
        0 <= j < all.len(),
        all[j] is Replace,
        all[j]->old == module,
        all[j]->old_version is None || all[j]->old_version == Some(version),
        forall|k: int| 0 <= k < j && (#[trigger] all[k]) is Replace ==> all[k]->old != module,
    ensures
        standing_for(all, module, version) == Some((all[j]->new, all[j]->new_version)),
    decreases j,
{
    if j > 0 {
        let rest = all.skip(1);
        assert(rest[j - 1] == all[j]);
        assert forall|k: int| 0 <= k < j - 1 && (#[trigger] rest[k]) is Replace implies rest[k]->old
            != module by {
            assert(rest[k] == all[k + 1]);
        }
        lemma_standing(rest, module, version, j - 1);
        assert(all[0] is Replace ==> all[0]->old != module);
    }
}

proof fn lemma_reported(all: Seq<Directive>, n: nat, path: Seq<char>, i: int)
    requires
        n <= all.len(),
        0 <= i < n,
        all[i] is Require,
        standing_for(all, all[i]->module, all[i]->Require_version) matches Some((_, Some(_))),
    ensures
        ({
            let (new, v) = standing_for(all, all[i]->module, all[i]->Require_version)->Some_0;
            modules(all, n, path).contains(
                reported(Ecosystem::Go, new, v->Some_0, path, seq![], false),
            )
        }),
    decreases n,
{
    let (new, v) = standing_for(all, all[i]->module, all[i]->Require_version)->Some_0;
    let g = reported(Ecosystem::Go, new, v->Some_0, path, seq![], false);
    let before = modules(all, (n - 1) as nat, path);
    let out = modules(all, n, path);
    if i == n - 1 {
        assert(out[before.len() as int] == g);
    } else {
        lemma_reported(all, (n - 1) as nat, path, i);
        let k = choose|k: int| 0 <= k < before.len() && before[k] == g;
        assert(out[k] == g);
    }
}

proof fn lemma_unreported(
    all: Seq<Directive>,
    n: nat,
    path: Seq<char>,
    module: Seq<char>,
    version: Seq<char>,
)
    requires
        n <= all.len(),
        standing_for(all, module, version) is Some,
        forall|k: int|
            0 <= k < all.len() && (#[trigger] all[k]) is Replace ==> all[k]->new != module,
        forall|k: int|
            0 <= k < all.len() && (#[trigger] all[k]) is Require && all[k]->module == module
                ==> all[k]->Require_version == version,
    ensures
        forall|k: int|
            0 <= k < modules(all, n, path).len() ==> (#[trigger] modules(
                all,
                n,
                path,
            )[k]).package.key.name != module,
    decreases n,
{
    if n > 0 {
        let m = (n - 1) as nat;
        lemma_unreported(all, m, path, module, version);
        let before = modules(all, m, path);
        let out = modules(all, n, path);
        assert(all[m as int] is Require && all[m as int]->module == module
            ==> all[m as int]->Require_version == version);
        if all[m as int] is Require {
            lemma_standing_new(all, all[m as int]->module, all[m as int]->Require_version);
        }
        assert forall|k: int| 0 <= k < out.len() implies (#[trigger] out[k]).package.key.name
            != module by {
            if k < before.len() {
                assert(out[k] == before[k]);
            }
        }
    }
}

proof fn lemma_standing_new(all: Seq<Directive>, module: Seq<char>, version: Seq<char>)
    ensures
        standing_for(all, module, version) matches Some((new, _)) ==> exists|k: int|
            0 <= k < all.len() && (#[trigger] all[k]) is Replace && all[k]->new == new,
    decreases all.len(),
{
    if all.len() > 0 && standing_for(all, module, version) is Some {
        let rest = all.skip(1);
        let new = standing_for(all, module, version)->Some_0.0;
        if all[0] is Replace && all[0]->old == module && (all[0]->old_version is None
            || all[0]->old_version == Some(version)) {
            assert(all[0] is Replace && all[0]->new == new);
        } else {
            lemma_standing_new(rest, module, version);
            let k = choose|k: int|
                0 <= k < rest.len() && (#[trigger] rest[k]) is Replace && rest[k]->new == new;
            assert(all[k + 1] == rest[k]);
        }
    }
}

// ---- blocks ----

/// Whether a line can stand in a block of its kind.
pub open spec fn is_entry(d: Directive, is_require: bool) -> bool {
    d.wf() && match d {
        Directive::Require { module, .. } => is_require && !"require"@.is_prefix_of(module),
        Directive::Replace { .. } => !is_require,
        _ => false,
    }
}

/// An entry of a block, as it is written there: without its keyword.
pub open spec fn entry(d: Directive) -> Seq<char> {
    match d {
        Directive::Require { module, version } => seq!['\t'] + module + at(Some(version)),
        Directive::Replace { old, old_version, new, new_version } => seq!['\t'] + old + at(
            old_version,
        ) + " => "@ + new + at(new_version),
        _ => seq![],
    }
}

pub open spec fn entries(all: Seq<Directive>) -> Seq<Seq<char>> {
    Seq::new(all.len(), |i: int| entry(all[i]))
}

/// What opens a block.
pub open spec fn opening(is_require: bool) -> Seq<char> {
    if is_require {
        "require ("@
    } else {
        "replace ("@
    }
}

proof fn lemma_opening(bytes: Seq<u8>, path: Seq<char>, s: GoScan, is_require: bool)
    requires
        s.block is None,
    ensures
        ({
            let t = scan_step(bytes, path, s, line(opening(is_require)));
            &&& t.block == Some(is_require) && t.required == s.required && t.replaces
                == s.replaces
            &&& t.go == s.go && t.toolchain == s.toolchain
        }),
        lacks(opening(is_require), '\n'),
{
    reveal_strlit("require (");
    reveal_strlit("replace (");
    reveal_strlit("require");
    reveal_strlit("replace");
    reveal_strlit("(");
    let text = opening(is_require);
    assert(text.len() == 9);
    lemma_code(text);
    lemma_trimmed(text, Class::Space);
    assert(text.skip(7) =~= seq![' '] + "("@);
    assert(is_space(' '));
    lemma_trim_front(seq![' '], "("@, Class::Space);
    assert("require"@[2] == 'q' && "replace"@[2] == 'p');
    if is_require {
        assert(text.take(7) =~= "require"@);
        assert("require"@.is_prefix_of(text));
        assert(text[2] == 'q');
        assert(!"replace"@.is_prefix_of(text));
    } else {
        assert(text.take(7) =~= "replace"@);
        assert("replace"@.is_prefix_of(text));
        assert(text[2] == 'p');
        assert(!"require"@.is_prefix_of(text));
    }
    let k = keyword_step(bytes, path, s, text);
    lemma_no_directive(k, text);
}

proof fn lemma_closing(bytes: Seq<u8>, path: Seq<char>, s: GoScan)
    requires
        s.block is Some,
    ensures
        ({
            let t = scan_step(bytes, path, s, line(")"@));
            &&& t.block is None && t.required == s.required && t.replaces == s.replaces
            &&& t.go == s.go && t.toolchain == s.toolchain
        }),
        lacks(")"@, '\n'),
{
    reveal_strlit(")");
    lemma_code(")"@);
    lemma_trimmed(")"@, Class::Space);
}

/// A text behind a tab, given that it is one behind a keyword.
proof fn lemma_tabbed(full: Seq<char>, rest: Seq<char>)
    requires
        full.len() == 8 + rest.len(),
        rest == full.skip(8),
        uncommented(full),
        lacks(full, '\n'),
        rest.len() > 1,
        !is_space(rest[0]),
        !is_space(full[full.len() - 1]),
    ensures
        ({
            let text = seq!['\t'] + rest;
            &&& lacks(text, '\n')
            &&& code_of(line(text)) == text
            &&& trim_start_of(text, Class::Space) == rest
            &&& trim_of(text, Class::Space) == rest
            &&& rest != ")"@
        }),
{
    let tab = seq!['\t'];
    let text = tab + rest;
    assert(is_space('\t'));
    assert forall|i: int| 0 <= i < text.len() - 1 implies !(#[trigger] text[i] == '/' && text[i + 1]
        == '/') by {
        if i > 0 {
            assert(text[i] == full[i + 7] && text[i + 1] == full[i + 8]);
        }
    }
    assert forall|i: int| 0 <= i < text.len() implies #[trigger] text[i] != '\n' by {
        if i > 0 {
            assert(text[i] == full[i + 7]);
        }
    }
    assert(text[text.len() - 1] == full[full.len() - 1]);
    lemma_code(text);
    lemma_trim_front(tab, rest, Class::Space);
    assert(rest[rest.len() - 1] == full[full.len() - 1]);
    lemma_trim_back(rest, seq![], Class::Space);
    assert(rest + Seq::<char>::empty() =~= rest);
    reveal_strlit(")");
}

proof fn lemma_require_inside(
    bytes: Seq<u8>,
    path: Seq<char>,
    s: GoScan,
    module: Seq<char>,
    version: Seq<char>,
)
    requires
        s.block == Some(true),
        plain(module),
        plain(version),
        version[0] != '/',
        !"require"@.is_prefix_of(module),
    ensures
        ({
            let text = seq!['\t'] + module + at(Some(version));
            let t = scan_step(bytes, path, s, line(text));
            &&& t.block == s.block && t.go == s.go && t.toolchain == s.toolchain && t.replaces
                == s.replaces
            &&& gists(t.required) == gists(s.required).push(
                reported(Ecosystem::Go, module, version, path, seq![], false),
            )
            &&& lacks(text, '\n')
        }),
{
    let text = seq!['\t'] + module + at(Some(version));
    lemma_require_text(module, version);
    lemma_at(Some(version));
    lemma_plain_end(module);
    let rest = module + at(Some(version));
    let full = "require "@ + module + at(Some(version));
    reveal_strlit("require ");
    reveal_strlit("require");
    assert(text =~= seq!['\t'] + rest);
    assert(rest =~= full.skip(8));
    assert(rest[0] == module[0]);
    lemma_tabbed(full, rest);
    assert(!"require"@.is_prefix_of(rest)) by {
        if "require"@.is_prefix_of(rest) {
            lemma_prefix_of_word("require"@, module, at(Some(version)));
        }
    }
    assert(require_body(text) == rest);
    assert(text.subrange(1, 1 + module.len() as int) =~= module);
    lemma_require_entry(bytes, path, text, s.offset as int, module, version);
    let x = require_of(bytes, path, text, s.offset as int)->Some_0;
    lemma_gists_push(s.required, x);
}

proof fn lemma_replace_inside(
    bytes: Seq<u8>,
    path: Seq<char>,
    s: GoScan,
    old: Seq<char>,
    old_version: Option<Seq<char>>,
    new: Seq<char>,
    new_version: Option<Seq<char>>,
)
    requires
        s.block == Some(false),
        (Directive::Replace { old, old_version, new, new_version }).wf(),
    ensures
        ({
            let text = seq!['\t'] + old + at(old_version) + " => "@ + new + at(new_version);
            let t = scan_step(bytes, path, s, line(text));
            &&& t.block == s.block && t.go == s.go && t.toolchain == s.toolchain && t.required
                == s.required
            &&& t.replaces == s.replaces.push(
                ReplaceView {
                    old,
                    old_version,
                    new: match new_version {
                        Some(v) => Some((new, v)),
                        None => None,
                    },
                },
            )
            &&& lacks(text, '\n')
        }),
{
    let text = seq!['\t'] + old + at(old_version) + " => "@ + new + at(new_version);
    lemma_replace_text(old, old_version, new, new_version);
    lemma_replace_body(old, old_version, new, new_version);
    lemma_plain_end(old);
    let rest = old + at(old_version) + " => "@ + new + at(new_version);
    let full = (Directive::Replace { old, old_version, new, new_version }).text();
    reveal_strlit("replace ");
    reveal_strlit(" => ");
    assert(text =~= seq!['\t'] + rest);
    assert(full =~= "replace "@ + rest);
    assert(rest =~= full.skip(8));
    assert(rest[0] == old[0]);
    lemma_tabbed(full, rest);
}

proof fn lemma_entry(bytes: Seq<u8>, path: Seq<char>, s: GoScan, d: Directive)
    requires
        s.block is Some,
        is_entry(d, s.block->Some_0),
    ensures
        ({
            let t = scan_step(bytes, path, s, line(entry(d)));
            &&& t.block == s.block && t.go == s.go && t.toolchain == s.toolchain
            &&& gists(t.required) == gists(s.required) + asked_for(seq![d], path)
            &&& t.replaces == s.replaces + kept(seq![d])
        }),
        lacks(entry(d), '\n'),
{
    let one = seq![d];
    let none = Seq::<Directive>::empty();
    assert(one.drop_last() =~= none);
    assert(one.last() == d);
    assert(asked_for(none, path) =~= seq![]);
    assert(kept(none) =~= seq![]);
    match d {
        Directive::Require { module, version } => {
            lemma_require_inside(bytes, path, s, module, version);
            assert(asked_for(one, path) =~= seq![
                reported(Ecosystem::Go, module, version, path, seq![], false),
            ]);
            assert(gists(s.required) + asked_for(one, path) =~= gists(s.required).push(
                reported(Ecosystem::Go, module, version, path, seq![], false),
            ));
            assert(s.replaces + kept(one) =~= s.replaces);
        },
        Directive::Replace { old, old_version, new, new_version } => {
            lemma_replace_inside(bytes, path, s, old, old_version, new, new_version);
            assert(gists(s.required) + asked_for(one, path) =~= gists(s.required));
            assert(s.replaces + kept(one) =~= s.replaces.push(kept(one)[0]));
        },
        _ => {},
    }
}

proof fn lemma_prefix_of_word(prefix: Seq<char>, word: Seq<char>, behind: Seq<char>)
    requires
        prefix.is_prefix_of(word + behind),
        unspaced(prefix),
        behind.len() > 0,
        behind[0] == ' ',
    ensures
        prefix.is_prefix_of(word),
{
    let s = word + behind;
    if prefix.len() > word.len() {
        assert(prefix[word.len() as int] == s[word.len() as int]);
        assert(is_space(' '));
        assert(is_space(prefix[word.len() as int]));
    } else {
        assert(word.take(prefix.len() as int) =~= prefix);
    }
}

proof fn lemma_directives_add(a: Seq<Directive>, b: Seq<Directive>, path: Seq<char>)
    ensures
        asked_for(a + b, path) == asked_for(a, path) + asked_for(b, path),
        kept(a + b) == kept(a) + kept(b),
        last_go(a + b) == (match last_go(b) {
            Some(v) => Some(v),
            None => last_go(a),
        }),
        last_toolchain(a + b) == (match last_toolchain(b) {
            Some(v) => Some(v),
            None => last_toolchain(a),
        }),
    decreases b.len(),
{
    if b.len() == 0 {
        assert(a + b =~= a);
        assert(asked_for(a, path) + asked_for(b, path) =~= asked_for(a, path));
        assert(kept(a) + kept(b) =~= kept(a));
    } else {
        lemma_directives_add(a, b.drop_last(), path);
        assert((a + b).drop_last() =~= a + b.drop_last());
        assert((a + b).last() == b.last());
        assert(asked_for(a + b, path) =~= asked_for(a, path) + asked_for(b, path));
        assert(kept(a + b) =~= kept(a) + kept(b));
    }
}

proof fn lemma_entries(
    bytes: Seq<u8>,
    path: Seq<char>,
    before: Seq<Seq<char>>,
    inside: Seq<Directive>,
    is_require: bool,
)
    requires
        scan_of(bytes, path, before).block == Some(is_require),
        forall|i: int| 0 <= i < inside.len() ==> is_entry(#[trigger] inside[i], is_require),
    ensures
        ({
            let s = scan_of(bytes, path, before);
            let t = scan_of(bytes, path, before + each_line(entries(inside)));
            &&& t.block == s.block && t.go == s.go && t.toolchain == s.toolchain
            &&& gists(t.required) == gists(s.required) + asked_for(inside, path)
            &&& t.replaces == s.replaces + kept(inside)
        }),
        forall|i: int|
            0 <= i < inside.len() ==> lacks(#[trigger] entries(inside)[i], '\n'),
        last_go(inside) is None && last_toolchain(inside) is None,
    decreases inside.len(),
{
    let ls = each_line(entries(inside));
    let s = scan_of(bytes, path, before);
    if inside.len() == 0 {
        assert(before + ls =~= before);
        assert(gists(s.required) + asked_for(inside, path) =~= gists(s.required));
        assert(s.replaces + kept(inside) =~= s.replaces);
    } else {
        let front = inside.drop_last();
        let d = inside[inside.len() - 1];
        assert forall|i: int| 0 <= i < front.len() implies is_entry(
            #[trigger] front[i],
            is_require,
        ) by {
            assert(front[i] == inside[i]);
        }
        lemma_entries(bytes, path, before, front, is_require);
        assert((before + ls).drop_last() =~= before + each_line(entries(front)));
        assert((before + ls).last() == line(entry(d)));
        let t = scan_of(bytes, path, before + each_line(entries(front)));
        assert(is_entry(d, is_require));
        lemma_entry(bytes, path, t, d);
        lemma_directives_add(front, seq![d], path);
        assert(front + seq![d] =~= inside);
        assert(gists(s.required) + asked_for(inside, path) =~= gists(s.required) + asked_for(
            front,
            path,
        ) + asked_for(seq![d], path));
        assert(s.replaces + kept(inside) =~= s.replaces + kept(front) + kept(seq![d]));
        assert forall|i: int| 0 <= i < inside.len() implies lacks(
            #[trigger] entries(inside)[i],
            '\n',
        ) by {
            if i < front.len() {
                assert(entries(inside)[i] == entries(front)[i]);
            }
        }
    }
}

/// A block says what its entries say on lines of their own.
pub proof fn a_block_is_its_entries(
    before: Seq<Directive>,
    inside: Seq<Directive>,
    is_require: bool,
    after: Seq<Directive>,
    path: Seq<char>,
)
    requires
        all_wf(before),
        all_wf(after),
        forall|i: int| 0 <= i < inside.len() ==> is_entry(#[trigger] inside[i], is_require),
    ensures
        gists(
            go_mod_of(
                file(
                    texts(before) + seq![opening(is_require)] + entries(inside) + seq![")"@]
                        + texts(after),
                ),
                path,
            ),
        ) == gists(go_mod_of(file(texts(before + inside + after)), path)),
{
    let all = before + inside + after;
    assert(all_wf(all)) by {
        assert forall|i: int| 0 <= i < all.len() implies (#[trigger] all[i]).wf() by {
            if i < before.len() {
                assert(all[i] == before[i]);
            } else if i < before.len() + inside.len() {
                assert(all[i] == inside[i - before.len()]);
            } else {
                assert(all[i] == after[i - before.len() - inside.len()]);
            }
        }
    }
    a_go_mod_is_reported_as_it_is_built(all, path);
    let open = seq![opening(is_require)];
    let close = seq![")"@];
    let ts = texts(before) + open + entries(inside) + close + texts(after);
    let src = file(ts);
    let bytes = encode_utf8(src);
    lemma_texts(before);
    lemma_texts(after);
    let l1 = each_line(texts(before));
    let l2 = l1.push(line(opening(is_require)));
    let l3 = l2 + each_line(entries(inside));
    let l4 = l3.push(line(")"@));
    let l5 = l4 + each_line(texts(after));
    lemma_scan(bytes, path, before);
    let s1 = scan_of(bytes, path, l1);
    assert(l2.drop_last() =~= l1);
    lemma_opening(bytes, path, s1, is_require);
    lemma_entries(bytes, path, l2, inside, is_require);
    let s3 = scan_of(bytes, path, l3);
    assert(l4.drop_last() =~= l3);
    lemma_closing(bytes, path, s3);
    lemma_scan_on(bytes, path, l4, after);
    assert forall|i: int| 0 <= i < ts.len() implies lacks(#[trigger] ts[i], '\n') by {
        let n1 = before.len();
        let n2 = n1 + 1;
        let n3 = n2 + inside.len();
        if i < n1 {
            assert(ts[i] == texts(before)[i]);
        } else if i < n2 {
            assert(ts[i] == opening(is_require));
        } else if i < n3 {
            assert(ts[i] == entries(inside)[i - n2]);
        } else if i < n3 + 1 {
            assert(ts[i] == ")"@);
        } else {
            assert(ts[i] == texts(after)[i - n3 - 1]);
        }
    }
    lemma_file(ts);
    assert(each_line(ts) =~= l5);
    let s = scan_of(bytes, path, lines_of(src));
    lemma_directives_add(before, inside, path);
    lemma_directives_add(before + inside, after, path);
    assert(s.replaces =~= kept(all));
    assert(gists(s.required) =~= asked_for(all, path));
    assert(all.take(all.len() as int) =~= all);
    lemma_modules(all, all.len(), s.required, path);
    let found = all_replaced(s.replaces, s.required, path);
    reveal_strlit("stdlib");
    match (s.toolchain, s.go) {
        (Some((version, at)), _) => {
            lemma_gists_push(found, toolchain_of(bytes, path, version, at));
        },
        (None, Some((version, at))) => {
            lemma_gists_push(found, toolchain_of(bytes, path, version, at));
        },
        (None, None) => {},
    }
    assert(gists(go_mod_of(src, path)) =~= modules(all, all.len(), path) + builder(all, path));
}

// ---- comments ----

proof fn lemma_require_gist(
    b: Seq<u8>,
    c: Seq<u8>,
    path: Seq<char>,
    code: Seq<char>,
    i: int,
    j: int,
)
    ensures
        match (require_of(b, path, code, i), require_of(c, path, code, j)) {
            (Some(x), Some(y)) => gist(x) == gist(y),
            (None, None) => true,
            _ => false,
        },
{
}

/// Two lines with the same code are read alike.
proof fn lemma_similar_step(
    b: Seq<u8>,
    c: Seq<u8>,
    path: Seq<char>,
    s: GoScan,
    t: GoScan,
    l: Seq<char>,
    m: Seq<char>,
)
    requires
        similar(s, t),
        code_of(l) == code_of(m),
    ensures
        similar(scan_step(b, path, s, l), scan_step(c, path, t, m)),
{
    let code = code_of(l);
    let (i, j) = (s.offset as int, t.offset as int);
    lemma_require_gist(b, c, path, code, i, j);
    match (require_of(b, path, code, i), require_of(c, path, code, j)) {
        (Some(x), Some(y)) => {
            lemma_gists_push(s.required, x);
            lemma_gists_push(t.required, y);
        },
        _ => {},
    }
    assert(gists(and(s.required, require_of(b, path, code, i))) == gists(
        and(t.required, require_of(c, path, code, j)),
    ));
    match s.block {
        Some(_) => {},
        None => {
            let (x, y) = (keyword_step(b, path, s, code), keyword_step(c, path, t, code));
            assert(similar(x, y));
        },
    }
}

proof fn lemma_similar_on(
    b: Seq<u8>,
    c: Seq<u8>,
    path: Seq<char>,
    x: Seq<Seq<char>>,
    y: Seq<Seq<char>>,
    rest: Seq<Seq<char>>,
)
    requires
        similar(scan_of(b, path, x), scan_of(c, path, y)),
    ensures
        similar(scan_of(b, path, x + rest), scan_of(c, path, y + rest)),
    decreases rest.len(),
{
    if rest.len() == 0 {
        assert(x + rest =~= x);
        assert(y + rest =~= y);
    } else {
        lemma_similar_on(b, c, path, x, y, rest.drop_last());
        assert((x + rest).drop_last() =~= x + rest.drop_last());
        assert((y + rest).drop_last() =~= y + rest.drop_last());
        lemma_similar_step(
            b,
            c,
            path,
            scan_of(b, path, x + rest.drop_last()),
            scan_of(c, path, y + rest.drop_last()),
            rest.last(),
            rest.last(),
        );
    }
}

proof fn lemma_replaced_gists(
    replaces: Seq<ReplaceView>,
    a: Seq<ExtractedView>,
    b: Seq<ExtractedView>,
    path: Seq<char>,
)
    requires
        gists(a) == gists(b),
    ensures
        gists(all_replaced(replaces, a, path)) == gists(all_replaced(replaces, b, path)),
    decreases a.len(),
{
    assert(gists(a).len() == gists(b).len());
    if a.len() > 0 {
        let (x, y) = (a.last(), b.last());
        assert(gists(a.drop_last()) =~= gists(a).drop_last());
        assert(gists(b.drop_last()) =~= gists(b).drop_last());
        lemma_replaced_gists(replaces, a.drop_last(), b.drop_last(), path);
        assert(gist(x) == gists(a).last() && gist(y) == gists(b).last());
        lemma_applicable_same(replaces, x, y);
        let p = all_replaced(replaces, a.drop_last(), path);
        let q = all_replaced(replaces, b.drop_last(), path);
        match (replaced(replaces, x, path), replaced(replaces, y, path)) {
            (Some(u), Some(v)) => {
                lemma_gists_push(p, u);
                lemma_gists_push(q, v);
            },
            _ => {},
        }
    } else {
        assert(all_replaced(replaces, a, path) =~= all_replaced(replaces, b, path));
    }
}

proof fn lemma_applicable_same(replaces: Seq<ReplaceView>, x: ExtractedView, y: ExtractedView)
    requires
        x.package == y.package,
    ensures
        applicable(replaces, x) == applicable(replaces, y),
    decreases replaces.len(),
{
    if replaces.len() > 0 {
        lemma_applicable_same(replaces.skip(1), x, y);
    }
}

proof fn lemma_comment_code(text: Seq<char>, comment: Seq<char>)
    requires
        uncommented(text),
        text.len() > 0 ==> text.last() != '/' && text.last() != '\r',
        lacks(text, '\n'),
        lacks(comment, '\n'),
    ensures
        lacks(text + "//"@ + comment, '\n'),
        code_of(line(text + "//"@ + comment)) == code_of(line(text)),
{
    reveal_strlit("//");
    let long = text + "//"@ + comment;
    let (x, y) = (line(long), line(text));
    assert forall|i: int| 0 <= i < long.len() implies #[trigger] long[i] != '\n' by {
        if i < text.len() {
            assert(long[i] == text[i]);
        } else if i >= text.len() + 2 {
            assert(long[i] == comment[i - text.len() - 2]);
        }
    }
    let n = text.len();
    assert(x.subrange(n as int, (n + 2) as int) =~= "//"@);
    assert forall|j: int| 0 <= j < n implies #[trigger] x.subrange(j, j + "//"@.len()) != "//"@ by {
        let part = x.subrange(j, j + "//"@.len());
        if part == "//"@ {
            assert(part[0] == '/' && part[1] == '/');
            assert(x[j] == text[j]);
            if j + 1 < n {
                assert(x[j + 1] == text[j + 1]);
                assert(text[j] == '/' && text[j + 1] == '/');
            } else {
                assert(text.last() == '/');
            }
        }
    }
    lemma_find_first(x, "//"@, 0, n);
    assert(x.take(n as int) =~= text);
    assert forall|j: int| 0 <= j && j + "//"@.len() <= y.len() implies #[trigger] y.subrange(
        j,
        j + "//"@.len(),
    ) != "//"@ by {
        let part = y.subrange(j, j + "//"@.len());
        if part == "//"@ {
            assert(part[0] == '/' && part[1] == '/');
            assert(y[j] == '/' && y[j + 1] == '/');
            assert(text[j] == '/' && text[j + 1] == '/');
        }
    }
    lemma_find_none(y, "//"@, 0);
    if n > 0 {
        assert(text[n - 1] != '\n');
    }
    lemma_trim_back(text, seq!['\n'], Class::LineEnd);
}

/// A comment behind a line makes no difference to what is reported, wherever
/// the line stands.
pub proof fn a_comment_does_not_count(
    a: Seq<char>,
    text: Seq<char>,
    comment: Seq<char>,
    b: Seq<char>,
    path: Seq<char>,
)
    requires
        whole_lines(a),
        uncommented(text),
        text.len() > 0 ==> text.last() != '/' && text.last() != '\r',
        lacks(text, '\n'),
        lacks(comment, '\n'),
    ensures
        gists(go_mod_of(a + line(text + "//"@ + comment) + b, path)) == gists(
            go_mod_of(a + line(text) + b, path),
        ),
{
    lemma_comment_code(text, comment);
    lemma_swap(a, text + "//"@ + comment, text, b, path);
}

/// Lines with the same code can stand for each other.
proof fn lemma_swap(
    a: Seq<char>,
    s: Seq<char>,
    t: Seq<char>,
    b: Seq<char>,
    path: Seq<char>,
)
    requires
        whole_lines(a),
        lacks(s, '\n'),
        lacks(t, '\n'),
        code_of(line(s)) == code_of(line(t)),
    ensures
        gists(go_mod_of(a + line(s) + b, path)) == gists(go_mod_of(a + line(t) + b, path)),
{
    let (x, y) = (line(s), line(t));
    lemma_one_line(s);
    lemma_one_line(t);
    let (p, q) = (a + x + b, a + y + b);
    assert(p =~= a + (x + b));
    assert(q =~= a + (y + b));
    lemma_lines_concat(a, x + b);
    lemma_lines_concat(x, b);
    lemma_lines_concat(a, y + b);
    lemma_lines_concat(y, b);
    let (front, rest) = (lines_of(a), lines_of(b));
    let (bp, bq) = (encode_utf8(p), encode_utf8(q));
    let none = Seq::<Seq<char>>::empty();
    lemma_similar_on(bp, bq, path, none, none, front);
    assert(none + front =~= front);
    let (fx, fy) = (front.push(x), front.push(y));
    assert(fx.drop_last() =~= front);
    assert(fy.drop_last() =~= front);
    lemma_similar_step(
        bp,
        bq,
        path,
        scan_of(bp, path, front),
        scan_of(bq, path, front),
        x,
        y,
    );
    lemma_similar_on(bp, bq, path, fx, fy, rest);
    assert(fx + rest =~= lines_of(p));
    assert(fy + rest =~= lines_of(q));
    lemma_same_report(p, q, path);
}

proof fn lemma_same_report(p: Seq<char>, q: Seq<char>, path: Seq<char>)
    requires
        similar(
            scan_of(encode_utf8(p), path, lines_of(p)),
            scan_of(encode_utf8(q), path, lines_of(q)),
        ),
    ensures
        gists(go_mod_of(p, path)) == gists(go_mod_of(q, path)),
{
    let (bp, bq) = (encode_utf8(p), encode_utf8(q));
    let s = scan_of(bp, path, lines_of(p));
    let t = scan_of(bq, path, lines_of(q));
    lemma_replaced_gists(s.replaces, s.required, t.required, path);
    let u = all_replaced(s.replaces, s.required, path);
    let v = all_replaced(t.replaces, t.required, path);
    let (sv, tv) = (
        if s.toolchain is Some { s.toolchain } else { s.go },
        if t.toolchain is Some { t.toolchain } else { t.go },
    );
    if let Some((version, i)) = sv {
        let j = tv->Some_0.1;
        lemma_gists_push(u, toolchain_of(bp, path, version, i));
        lemma_gists_push(v, toolchain_of(bq, path, version, j));
    }
}

} // verus!
