//! What a `Cargo.toml` that is written down is read as.
use crate::laws::cargo::{
    bare_text, lemma_bare_line, lemma_comment_skip, lemma_first_char, lemma_no_comment,
    lemma_quoted_in, quoted,
};
use crate::laws::reports::{gists, lemma_gists_add, lemma_gists_push, reported, Gist};
use crate::laws::versions::{lemma_split_dots, with_dots};
use crate::laws::writing::{
    each_line, file, lacks, lemma_before, lemma_file, lemma_find_first, lemma_find_none,
    lemma_trim_back, lemma_trim_front, lemma_trimmed, line,
};
use crate::manifest::cargo::{
    cargo_toml_of, comment_from, declared_of, dependency_of, own_name, quoted_after_of,
    section_groups, section_name, section_of, toml_scan, toml_step, uncommented, version_place,
    TomlScan,
};
use crate::manifest::{first_of_each, keys_of, lowest_of};
use crate::model::{Ecosystem, ExtractedView, KeyView};
use crate::text::{
    find_from, first_of, is_alnum, is_space, lemma_first_of, lemma_leading, lines_of, split_of,
    trim_of, trim_start_of, Class,
};
use vstd::prelude::*;
use vstd::utf8::encode_utf8;

verus! {

// ---- what is written ----

/// Whether a text can be the key of a dependency.
pub open spec fn is_key(s: Seq<char>) -> bool {
    s.len() > 0 && forall|i: int|
        0 <= i < s.len() ==> is_alnum(#[trigger] s[i]) || s[i] == '-' || s[i] == '_'
}

/// Whether a text can stand between the quotes of a value: it names no field of
/// a table.
pub open spec fn is_value(s: Seq<char>) -> bool {
    s.len() > 0 && lacks(s, '"') && lacks(s, '\n') && lacks(s, '{') && lacks(s, 'v') && lacks(
        s,
        'k',
    )
}

/// One line of a `Cargo.toml`.
pub enum TomlLine {
    /// A dependency table, by its place: what ships, what builds, what tests.
    Table(int),
    /// A table of anything else.
    OtherTable(Seq<char>),
    /// `key = "requirement"`
    Plain(Seq<char>, Seq<char>),
    /// `key = { version = "requirement" }`
    Versioned(Seq<char>, Seq<char>),
    /// `key = { package = "name", version = "requirement" }`
    Renamed(Seq<char>, Seq<char>, Seq<char>),
    /// `key = { path = "place" }`
    Pathed(Seq<char>, Seq<char>),
    /// A comment or a blank line.
    Comment(Seq<char>),
}

pub open spec fn title(i: int) -> Seq<char> {
    if i == 0 {
        "dependencies"@
    } else if i == 1 {
        "build-dependencies"@
    } else {
        "dev-dependencies"@
    }
}

pub open spec fn value_text(l: TomlLine) -> Seq<char> {
    match l {
        TomlLine::Plain(_, v) => " "@ + quoted(v),
        TomlLine::Versioned(_, v) => " { version = "@ + quoted(v) + " }"@,
        TomlLine::Renamed(_, p, v) => " { package = "@ + quoted(p) + ", version = "@ + quoted(v)
            + " }"@,
        TomlLine::Pathed(_, p) => " { path = "@ + quoted(p) + " }"@,
        _ => seq![],
    }
}

pub open spec fn key_of(l: TomlLine) -> Seq<char> {
    match l {
        TomlLine::Plain(k, _) => k,
        TomlLine::Versioned(k, _) => k,
        TomlLine::Renamed(k, _, _) => k,
        TomlLine::Pathed(k, _) => k,
        _ => seq![],
    }
}

pub open spec fn is_entry(l: TomlLine) -> bool {
    l is Plain || l is Versioned || l is Renamed || l is Pathed
}

impl TomlLine {
    pub open spec fn text(self) -> Seq<char> {
        match self {
            TomlLine::Table(i) => seq!['['] + title(i) + seq![']'],
            TomlLine::OtherTable(t) => seq!['['] + t + seq![']'],
            TomlLine::Comment(t) => t,
            _ => key_of(self) + " ="@ + value_text(self),
        }
    }

    pub open spec fn wf(self) -> bool {
        match self {
            TomlLine::Table(i) => 0 <= i < 3,
            TomlLine::OtherTable(t) => is_key(t) && t != title(0) && t != title(1) && t != title(2),
            TomlLine::Comment(t) => lacks(t, '\n') && (t.len() > 0 ==> t[0] == '#'),
            TomlLine::Plain(k, v) => is_key(k) && is_value(v),
            TomlLine::Versioned(k, v) => is_key(k) && is_value(v),
            TomlLine::Renamed(k, p, v) => is_key(k) && is_value(p) && is_value(v),
            TomlLine::Pathed(k, p) => is_key(k) && is_value(p),
        }
    }
}

pub open spec fn texts(all: Seq<TomlLine>) -> Seq<Seq<char>> {
    Seq::new(all.len(), |i: int| all[i].text())
}

pub open spec fn all_wf(all: Seq<TomlLine>) -> bool {
    forall|i: int| 0 <= i < all.len() ==> (#[trigger] all[i]).wf()
}

// ---- what is meant ----

/// The version that a requirement is looked up at: the lowest that it names, or
/// the requirement itself where it names none.
pub open spec fn looked_up_at(requirement: Seq<char>) -> Seq<char> {
    match lowest_of(requirement) {
        Some(l) => l.version,
        None => requirement,
    }
}

pub open spec fn groups_of(i: int) -> Seq<Seq<char>> {
    if i == 0 {
        seq![]
    } else if i == 1 {
        seq!["build"@]
    } else {
        seq!["dev"@]
    }
}

/// The crate and the requirement that an entry declares: under its own name
/// where it was renamed, and none where it has no version.
pub open spec fn declares(l: TomlLine) -> Option<(Seq<char>, Seq<char>)> {
    match l {
        TomlLine::Plain(k, v) => Some((k, v)),
        TomlLine::Versioned(k, v) => Some((k, v)),
        TomlLine::Renamed(_, p, v) => Some((p, v)),
        _ => None,
    }
}

/// The dependency table that the end of some lines is in.
pub open spec fn table_at_end(all: Seq<TomlLine>) -> Option<int>
    decreases all.len(),
{
    if all.len() == 0 {
        None
    } else {
        match all.last() {
            TomlLine::Table(i) => Some(i),
            TomlLine::OtherTable(_) => None,
            _ => table_at_end(all.drop_last()),
        }
    }
}

/// What one dependency table declares, wherever in the file its parts stand.
pub open spec fn declared_in(all: Seq<TomlLine>, i: int, path: Seq<char>) -> Seq<Gist>
    decreases all.len(),
{
    if all.len() == 0 {
        seq![]
    } else {
        let before = declared_in(all.drop_last(), i, path);
        match declares(all.last()) {
            Some((name, requirement)) => if table_at_end(all.drop_last()) == Some(i) {
                before.push(
                    reported(
                        Ecosystem::CratesIo,
                        name,
                        looked_up_at(requirement),
                        path,
                        groups_of(i),
                        true,
                    ),
                )
            } else {
                before
            },
            None => before,
        }
    }
}

pub open spec fn names_in(all: Seq<Gist>) -> Seq<KeyView> {
    Seq::new(all.len(), |i: int| all[i].package.key)
}

/// The first of each package.
pub open spec fn once(all: Seq<Gist>) -> Seq<Gist>
    decreases all.len(),
{
    if all.len() == 0 {
        seq![]
    } else {
        let before = once(all.drop_last());
        if names_in(before).contains(all.last().package.key) {
            before
        } else {
            before.push(all.last())
        }
    }
}

// ---- one line ----

proof fn lemma_entry_text(l: TomlLine)
    requires
        l.wf(),
        is_entry(l),
    ensures
        ({
            let s = l.text();
            &&& uncommented(line(s)) == s
            &&& lacks(s, '\n')
            &&& s[0] == key_of(l)[0] && s[0] != '[' && !is_space(s[0])
            &&& !is_space(s[s.len() - 1])
        }),
{
    reveal_strlit(" =");
    reveal_strlit(" ");
    reveal_strlit(" { version = ");
    reveal_strlit(" { package = ");
    reveal_strlit(", version = ");
    reveal_strlit(" { path = ");
    reveal_strlit(" }");
    let s = l.text();
    let k = key_of(l);
    assert(s[0] == k[0]);
    assert(forall|i: int| 0 <= i < k.len() ==> #[trigger] k[i] != '"' && k[i] != '\'' && k[i] != '#'
        && k[i] != '\n' && !is_space(k[i]));
    match l {
        TomlLine::Plain(_, v) => {
            lemma_one_value(k + " ="@ + " "@, v, seq![]);
            assert(s =~= k + " ="@ + " "@ + quoted(v) + seq![]);
        },
        TomlLine::Versioned(_, v) => {
            lemma_one_value(k + " ="@ + " { version = "@, v, " }"@);
            assert(s =~= k + " ="@ + " { version = "@ + quoted(v) + " }"@);
        },
        TomlLine::Pathed(_, p) => {
            lemma_one_value(k + " ="@ + " { path = "@, p, " }"@);
            assert(s =~= k + " ="@ + " { path = "@ + quoted(p) + " }"@);
        },
        TomlLine::Renamed(_, p, v) => {
            lemma_two_values(k + " ="@ + " { package = "@, p, ", version = "@, v, " }"@);
            assert(s =~= k + " ="@ + " { package = "@ + quoted(p) + ", version = "@ + quoted(v)
                + " }"@);
        },
        _ => {},
    }
}

/// Whether a text is free of quotes, comments and line ends.
pub open spec fn tidy(s: Seq<char>) -> bool {
    bare_text(s) && lacks(s, '\n')
}

proof fn lemma_tidy_add(a: Seq<char>, b: Seq<char>)
    requires
        tidy(a),
        tidy(b),
    ensures
        tidy(a + b),
{
    let s = a + b;
    assert forall|i: int| 0 <= i < s.len() implies #[trigger] s[i] != '"' && s[i] != '\'' && s[i]
        != '#' && s[i] != '\n' by {
        if i < a.len() {
            assert(s[i] == a[i]);
        } else {
            assert(s[i] == b[i - a.len()]);
        }
    }
}

proof fn lemma_one_value(a: Seq<char>, v: Seq<char>, b: Seq<char>)
    requires
        tidy(a),
        lacks(v, '"') && lacks(v, '\n'),
        tidy(b),
        b.len() > 0 ==> !is_space(b[b.len() - 1]),
    ensures
        ({
            let s = a + quoted(v) + b;
            &&& uncommented(line(s)) == s
            &&& lacks(s, '\n')
            &&& !is_space(s[s.len() - 1])
        }),
{
    let s = a + quoted(v) + b;
    assert(s[s.len() - 1] == (if b.len() > 0 {
        b[b.len() - 1]
    } else {
        '"'
    }));
    assert(s.last() == s[s.len() - 1]);
    lemma_no_comment(a, v, b);
    assert forall|i: int| 0 <= i < s.len() implies #[trigger] s[i] != '\n' by {
        let n = a.len() + 1 + v.len();
        if i < a.len() {
            assert(s[i] == a[i]);
        } else if a.len() < i < n {
            assert(s[i] == v[i - a.len() - 1]);
        } else if i > n {
            assert(s[i] == b[i - n - 1]);
        }
    }
}

proof fn lemma_two_values(
    a: Seq<char>,
    p: Seq<char>,
    m: Seq<char>,
    v: Seq<char>,
    b: Seq<char>,
)
    requires
        tidy(a) && tidy(m) && tidy(b),
        lacks(p, '"') && lacks(p, '\n'),
        lacks(v, '"') && lacks(v, '\n'),
        b.len() > 0 && !is_space(b[b.len() - 1]),
    ensures
        ({
            let s = a + quoted(p) + m + quoted(v) + b;
            &&& uncommented(line(s)) == s
            &&& lacks(s, '\n')
            &&& !is_space(s[s.len() - 1])
        }),
{
    let s = a + quoted(p) + m + quoted(v) + b;
    let l = line(s);
    let n1 = a.len();
    let n2 = n1 + 1 + p.len();
    let n3 = n2 + 1 + m.len();
    let n4 = n3 + 1 + v.len();
    assert(s[s.len() - 1] == b[b.len() - 1]);
    assert forall|i: int| 0 <= i < n1 implies l[i] != '"' && l[i] != '\'' && l[i] != '#' by {
        assert(l[i] == a[i]);
    }
    lemma_comment_skip(l, 0, n1, None);
    assert(l[n1 as int] == '"');
    assert forall|i: int| n1 + 1 <= i < n2 implies #[trigger] l[i] != '"' by {
        assert(l[i] == p[i - n1 - 1]);
    }
    lemma_comment_skip(l, n1 + 1, n2, Some('"'));
    assert(l[n2 as int] == '"');
    assert forall|i: int| n2 + 1 <= i < n3 implies l[i] != '"' && l[i] != '\'' && l[i] != '#' by {
        assert(l[i] == m[i - n2 - 1]);
    }
    lemma_comment_skip(l, n2 + 1, n3, None);
    assert(l[n3 as int] == '"');
    assert forall|i: int| n3 + 1 <= i < n4 implies #[trigger] l[i] != '"' by {
        assert(l[i] == v[i - n3 - 1]);
    }
    lemma_comment_skip(l, n3 + 1, n4, Some('"'));
    assert(l[n4 as int] == '"');
    assert forall|i: int| n4 + 1 <= i < l.len() implies l[i] != '"' && l[i] != '\'' && l[i]
        != '#' by {
        if i < s.len() {
            assert(l[i] == b[i - n4 - 1]);
        }
    }
    lemma_comment_skip(l, n4 + 1, l.len(), None);
    assert(comment_from(l, n1, None) == comment_from(l, n1 + 1, Some('"')));
    assert(comment_from(l, n2, Some('"')) == comment_from(l, n2 + 1, None));
    assert(comment_from(l, n3, None) == comment_from(l, n3 + 1, Some('"')));
    assert(comment_from(l, n4, Some('"')) == comment_from(l, n4 + 1, None));
    lemma_trim_back(s, seq!['\n'], Class::LineEnd);
    assert forall|i: int| 0 <= i < s.len() implies #[trigger] s[i] != '\n' by {
        if i < n1 {
            assert(s[i] == a[i]);
        } else if n1 < i < n2 {
            assert(s[i] == p[i - n1 - 1]);
        } else if n2 < i < n3 {
            assert(s[i] == m[i - n2 - 1]);
        } else if n3 < i < n4 {
            assert(s[i] == v[i - n3 - 1]);
        } else if i > n4 {
            assert(s[i] == b[i - n4 - 1]);
        }
    }
}

/// A text that holds a character is not found where that is missing.
proof fn lemma_absent(s: Seq<char>, needle: Seq<char>, c: char, at: int)
    requires
        lacks(s, c),
        0 <= at < needle.len(),
        needle[at] == c,
    ensures
        find_from(s, needle, 0) is None,
{
    assert forall|j: int| 0 <= j && j + needle.len() <= s.len() implies #[trigger] s.subrange(
        j,
        j + needle.len(),
    ) != needle by {
        let part = s.subrange(j, j + needle.len());
        assert(part[at] == s[j + at]);
    }
    lemma_find_none(s, needle, 0);
}

/// The quoted value behind a key in a table.
proof fn lemma_quoted_after(pre: Seq<char>, key: Seq<char>, v: Seq<char>, post: Seq<char>, c: char)
    requires
        key.len() > 0,
        key[0] == c,
        lacks(pre, c),
        lacks(v, '"'),
    ensures
        ({
            let s = pre + key + " = "@ + quoted(v) + post;
            let a = pre.len() + key.len() + 4;
            &&& quoted_after_of(s, key) == Some((a, a + v.len()))
            &&& s.subrange(a as int, (a + v.len()) as int) == v
        }),
{
    reveal_strlit(" = ");
    let s = pre + key + " = "@ + quoted(v) + post;
    let n = pre.len();
    assert(s.subrange(n as int, (n + key.len()) as int) =~= key);
    assert forall|j: int| 0 <= j < n implies #[trigger] s.subrange(j, j + key.len()) != key by {
        assert(s.subrange(j, j + key.len())[0] == pre[j]);
    }
    lemma_find_first(s, key, 0, n);
    let behind = s.skip((n + key.len()) as int);
    let from = seq!['=', ' '] + quoted(v) + post;
    assert(behind =~= seq![' '] + from);
    assert(is_space(' '));
    assert(from[0] == '=');
    lemma_trim_front(seq![' '], from, Class::Space);
    let inner = seq![' '] + quoted(v) + post;
    assert(from.skip(1) =~= inner);
    lemma_quoted_in(seq![' '], v, post);
    let a = n + key.len() + 4;
    assert(s.subrange(a as int, (a + v.len()) as int) =~= v);
}

/// Where an entry's version is, and what names its crate.
pub open spec fn value_is_right(l: TomlLine) -> bool {
    let value = value_text(l);
    match declares(l) {
        Some((name, requirement)) => {
            &&& version_place(value) is Some
            &&& version_place(value)->Some_0.0 < version_place(value)->Some_0.1 <= value.len()
            &&& value.subrange(
                version_place(value)->Some_0.0 as int,
                version_place(value)->Some_0.1 as int,
            ) == requirement
            &&& match quoted_after_of(value, "package"@) {
                Some((c, d)) => value.subrange(c as int, d as int) == name,
                None => name == key_of(l),
            }
        },
        None => version_place(value) is None,
    }
}

proof fn lemma_plain_value(k: Seq<char>, v: Seq<char>)
    requires
        is_value(v),
    ensures
        value_is_right(TomlLine::Plain(k, v)),
{
    reveal_strlit(" ");
    reveal_strlit("version");
    reveal_strlit("package");
    let l = TomlLine::Plain(k, v);
    let value = value_text(l);
    assert("version"@[0] == 'v' && "package"@[3] == 'k');
    lemma_quoted_in(" "@, v, seq![]);
    assert(value =~= " "@ + quoted(v) + seq![]);
    assert forall|i: int| 0 <= i < value.len() implies #[trigger] value[i] != 'v' && value[i] != 'k'
        && value[i] != '{' by {
        if 2 <= i < 2 + v.len() {
            assert(value[i] == v[i - 2]);
        }
    }
    lemma_absent(value, "version"@, 'v', 0);
    lemma_absent(value, "package"@, 'k', 3);
    lemma_first_of(value, Class::One('{'), value.len());
}

proof fn lemma_versioned_value(k: Seq<char>, v: Seq<char>)
    requires
        is_value(v),
    ensures
        value_is_right(TomlLine::Versioned(k, v)),
{
    reveal_strlit(" = ");
    reveal_strlit(" { ");
    reveal_strlit(" { version = ");
    reveal_strlit(" }");
    reveal_strlit("version");
    reveal_strlit("package");
    let l = TomlLine::Versioned(k, v);
    let value = value_text(l);
    assert("version"@[0] == 'v' && "package"@[3] == 'k');
    lemma_quoted_after(" { "@, "version"@, v, " }"@, 'v');
    assert(" { version = "@ =~= " { "@ + "version"@ + " = "@);
    assert(value =~= " { "@ + "version"@ + " = "@ + quoted(v) + " }"@);
    assert forall|i: int| 0 <= i < value.len() implies #[trigger] value[i] != 'k' by {
        let n = 14 + v.len();
        if 14 <= i < n {
            assert(value[i] == v[i - 14]);
        } else if i > n {
            assert(value[i] == " }"@[i - n - 1]);
        } else if i < 13 {
            assert(value[i] == " { version = "@[i]);
        }
    }
    lemma_absent(value, "package"@, 'k', 3);
}

proof fn lemma_renamed_value(k: Seq<char>, p: Seq<char>, v: Seq<char>)
    requires
        is_value(p) && is_value(v),
    ensures
        value_is_right(TomlLine::Renamed(k, p, v)),
{
    reveal_strlit(" = ");
    reveal_strlit(" { ");
    reveal_strlit(" { package = ");
    reveal_strlit(", version = ");
    reveal_strlit(" }");
    reveal_strlit("version");
    reveal_strlit("package");
    let l = TomlLine::Renamed(k, p, v);
    let value = value_text(l);
    assert("version"@[0] == 'v' && "package"@[0] == 'p');
    let tail = ", version = "@ + quoted(v) + " }"@;
    lemma_quoted_after(" { "@, "package"@, p, tail, 'p');
    assert(" { package = "@ =~= " { "@ + "package"@ + " = "@);
    assert(value =~= " { "@ + "package"@ + " = "@ + quoted(p) + tail);
    let pre = " { package = "@ + quoted(p) + seq![',', ' '];
    assert forall|i: int| 0 <= i < pre.len() implies #[trigger] pre[i] != 'v' by {
        let n = 14 + p.len();
        if 14 <= i < n {
            assert(pre[i] == p[i - 14]);
        } else if i < 13 {
            assert(pre[i] == " { package = "@[i]);
        }
    }
    lemma_quoted_after(pre, "version"@, v, " }"@, 'v');
    assert(", version = "@ =~= seq![',', ' '] + "version"@ + " = "@);
    assert(value =~= pre + "version"@ + " = "@ + quoted(v) + " }"@);
}

proof fn lemma_pathed_value(k: Seq<char>, p: Seq<char>)
    requires
        is_value(p),
    ensures
        value_is_right(TomlLine::Pathed(k, p)),
{
    reveal_strlit(" { path = ");
    reveal_strlit(" }");
    reveal_strlit("version");
    let l = TomlLine::Pathed(k, p);
    let value = value_text(l);
    assert("version"@[0] == 'v');
    assert forall|i: int| 0 <= i < value.len() implies #[trigger] value[i] != 'v' by {
        let n = 11 + p.len();
        if 11 <= i < n {
            assert(value[i] == p[i - 11]);
        } else if i > n {
            assert(value[i] == " }"@[i - n - 1]);
        } else if i < 10 {
            assert(value[i] == " { path = "@[i]);
        }
    }
    lemma_absent(value, "version"@, 'v', 0);
    assert(value[1] == '{');
    crate::text::lemma_first_of_is(value, Class::One('{'));
    assert(Class::One('{').has(value[1]));
}

proof fn lemma_value(l: TomlLine)
    requires
        l.wf(),
        is_entry(l),
    ensures
        value_is_right(l),
{
    match l {
        TomlLine::Plain(k, v) => lemma_plain_value(k, v),
        TomlLine::Versioned(k, v) => lemma_versioned_value(k, v),
        TomlLine::Renamed(k, p, v) => lemma_renamed_value(k, p, v),
        TomlLine::Pathed(k, p) => lemma_pathed_value(k, p),
        _ => {},
    }
}

/// What an entry declares, read from its line.
proof fn lemma_dependency(l: TomlLine)
    requires
        l.wf(),
        is_entry(l),
    ensures
        match (declares(l), dependency_of(l.text())) {
            (Some((name, requirement)), Some(d)) => d.name == name && l.text().subrange(
                d.version.0 as int,
                d.version.1 as int,
            ) == requirement,
            (None, None) => true,
            _ => false,
        },
{
    reveal_strlit(" =");
    let s = l.text();
    let k = key_of(l);
    let value = value_text(l);
    assert forall|i: int| 0 <= i < k.len() implies !Class::Quote.has(#[trigger] k[i])
        && !Class::NotKey.has(k[i]) && !is_space(k[i]) && k[i] != '=' by {}
    let front = k + seq![' '];
    let back = seq!['='] + value;
    assert(s =~= front + back);
    assert forall|i: int| 0 <= i < front.len() implies !Class::One('=').has(#[trigger] front[i]) by {
        if i < k.len() {
            assert(front[i] == k[i]);
        }
    }
    lemma_before(front, back, Class::One('='));
    let eq = front.len();
    assert(s.take(eq as int) =~= front);
    assert(s.skip(eq as int + 1) =~= value);
    assert(front[0] == k[0]);
    lemma_leading(front, Class::Space, 0);
    assert(is_space(' '));
    lemma_trim_back(k, seq![' '], Class::Space);
    assert(s.subrange(0, k.len() as int) =~= k);
    lemma_trimmed(k, Class::Quote);
    lemma_first_of(k, Class::NotKey, k.len());
    lemma_value(l);
    if let Some((name, requirement)) = declares(l) {
        let (a, b) = version_place(value)->Some_0;
        assert(s.subrange((eq + 1 + a) as int, (eq + 1 + b) as int) =~= value.subrange(
            a as int,
            b as int,
        ));
    }
}

proof fn lemma_section(i: int)
    requires
        0 <= i < 3,
    ensures
        section_of((TomlLine::Table(i)).text()) == Some(i),
        section_name(i) == title(i),
        section_groups(i) == groups_of(i),
        is_key(title(i)),
{
    reveal_strlit("dependencies");
    reveal_strlit("build-dependencies");
    reveal_strlit("dev-dependencies");
    reveal_strlit("dev");
    assert("dependencies"@.len() == 12 && "build-dependencies"@.len() == 18
        && "dev-dependencies"@.len() == 16);
    let t = title(i);
    assert(is_key(t));
    lemma_title(t);
}

/// The last component of a header without dots is all of it.
proof fn lemma_title(t: Seq<char>)
    requires
        is_key(t),
    ensures
        ({
            let header = seq!['['] + t + seq![']'];
            let pieces = split_of(trim_of(header, Class::Bracket), Class::One('.'));
            trim_of(pieces.last(), Class::Space) == t
        }),
{
    let header = seq!['['] + t + seq![']'];
    assert(!Class::Bracket.has(t[0]) && !Class::Bracket.has(t[t.len() - 1]));
    let inner = t + seq![']'];
    assert(header =~= seq!['['] + inner);
    assert(inner[0] == t[0]);
    lemma_trim_front(seq!['['], inner, Class::Bracket);
    lemma_trim_back(t, seq![']'], Class::Bracket);
    let one = seq![t];
    assert(with_dots(one) =~= t);
    assert(lacks(t, '.'));
    assert forall|i: int| 0 <= i < one.len() implies lacks(#[trigger] one[i], '.') by {}
    lemma_split_dots(one);
    assert(!is_space(t[0]) && !is_space(t[t.len() - 1]));
    lemma_trimmed(t, Class::Space);
}

proof fn lemma_header_text(t: Seq<char>)
    requires
        is_key(t),
    ensures
        ({
            let s = seq!['['] + t + seq![']'];
            &&& uncommented(line(s)) == s
            &&& trim_of(s, Class::Space) == s
            &&& lacks(s, '\n')
            &&& s[0] == '['
        }),
{
    let s = seq!['['] + t + seq![']'];
    assert forall|i: int| 0 <= i < s.len() implies #[trigger] s[i] != '"' && s[i] != '\'' && s[i]
        != '#' && s[i] != '\n' by {
        if 0 < i < s.len() - 1 {
            assert(s[i] == t[i - 1]);
        }
    }
    lemma_bare_line(s);
    lemma_trimmed(s, Class::Space);
}

/// What the tables of a scan hold.
pub open spec fn table_of(s: TomlScan, i: int) -> Seq<ExtractedView> {
    if i == 0 {
        s.shipped
    } else if i == 1 {
        s.build
    } else {
        s.dev
    }
}

proof fn lemma_step(b: Seq<u8>, path: Seq<char>, s: TomlScan, l: TomlLine)
    requires
        l.wf(),
        s.section matches Some(i) ==> 0 <= i < 3,
    ensures
        ({
            let t = toml_step(b, path, s, line(l.text()));
            &&& t.section == (match l {
                TomlLine::Table(i) => Some(i),
                TomlLine::OtherTable(_) => None,
                _ => s.section,
            })
            &&& forall|i: int|
                0 <= i < 3 ==> gists(#[trigger] table_of(t, i)) == (match declares(l) {
                    Some((name, requirement)) => if s.section == Some(i) {
                        gists(table_of(s, i)).push(
                            reported(
                                Ecosystem::CratesIo,
                                name,
                                looked_up_at(requirement),
                                path,
                                groups_of(i),
                                true,
                            ),
                        )
                    } else {
                        gists(table_of(s, i))
                    },
                    None => gists(table_of(s, i)),
                })
        }),
        lacks(l.text(), '\n'),
{
    let t = toml_step(b, path, s, line(l.text()));
    match l {
        TomlLine::Table(i) => {
            lemma_section(i);
            lemma_header_text(title(i));
        },
        TomlLine::OtherTable(x) => {
            lemma_header_text(x);
            lemma_title(x);
            lemma_section(0);
            lemma_section(1);
            lemma_section(2);
        },
        TomlLine::Comment(x) => {
            lemma_first_char(x);
            lemma_comment_line(x);
            lemma_trimmed(seq![], Class::Space);
            assert(first_of(Seq::<char>::empty(), Class::One('=')) is None);
            assert(dependency_of(Seq::<char>::empty()) is None);
        },
        _ => {
            lemma_entry_text(l);
            lemma_trimmed(l.text(), Class::Space);
            lemma_dependency(l);
            if let Some(i) = s.section {
                lemma_section(i);
                let found = declared_of(b, path, l.text(), s.offset as int, i);
                if let Some(x) = found {
                    lemma_gists_push(table_of(s, i), x);
                }
            }
        },
    }
}

proof fn lemma_comment_line(x: Seq<char>)
    requires
        lacks(x, '\n'),
        x.len() > 0 ==> x[0] == '#',
    ensures
        uncommented(line(x)) == Seq::<char>::empty(),
{
    let l = line(x);
    if x.len() > 0 {
        assert(l[0] == '#');
        assert(comment_from(l, 0, None) == Some(0nat));
        assert(l.take(0) =~= seq![]);
    } else {
        assert(l =~= seq!['\n']);
        lemma_bare_line(x);
        assert(x =~= seq![]);
    }
}

// ---- whole files ----

proof fn lemma_scan(b: Seq<u8>, path: Seq<char>, all: Seq<TomlLine>)
    requires
        all_wf(all),
    ensures
        ({
            let s = toml_scan(b, path, each_line(texts(all)));
            &&& s.section == table_at_end(all)
            &&& s.section matches Some(i) ==> 0 <= i < 3
            &&& forall|i: int|
                0 <= i < 3 ==> gists(#[trigger] table_of(s, i)) == declared_in(all, i, path)
        }),
        forall|i: int| 0 <= i < all.len() ==> lacks(#[trigger] texts(all)[i], '\n'),
    decreases all.len(),
{
    let ls = each_line(texts(all));
    if all.len() == 0 {
        let s = toml_scan(b, path, ls);
        assert forall|i: int| 0 <= i < 3 implies gists(#[trigger] table_of(s, i)) == declared_in(
            all,
            i,
            path,
        ) by {
            assert(gists(table_of(s, i)) =~= declared_in(all, i, path));
        }
    } else {
        let front = all.drop_last();
        assert(all_wf(front)) by {
            assert forall|i: int| 0 <= i < front.len() implies (#[trigger] front[i]).wf() by {
                assert(front[i] == all[i]);
            }
        }
        lemma_scan(b, path, front);
        assert(ls.drop_last() =~= each_line(texts(front)));
        assert(ls.last() == line(all.last().text()));
        let s = toml_scan(b, path, ls.drop_last());
        assert(all[all.len() - 1].wf());
        lemma_step(b, path, s, all.last());
        let t = toml_scan(b, path, ls);
        assert forall|i: int| 0 <= i < 3 implies gists(#[trigger] table_of(t, i)) == declared_in(
            all,
            i,
            path,
        ) by {
            assert(gists(table_of(s, i)) == declared_in(front, i, path));
        }
        assert forall|i: int| 0 <= i < all.len() implies lacks(#[trigger] texts(all)[i], '\n') by {
            if i < front.len() {
                assert(texts(all)[i] == texts(front)[i]);
            }
        }
    }
}

proof fn lemma_once(all: Seq<ExtractedView>)
    ensures
        gists(first_of_each(all)) == once(gists(all)),
    decreases all.len(),
{
    let g = gists(all);
    if all.len() > 0 {
        lemma_once(all.drop_last());
        assert(gists(all.drop_last()) =~= g.drop_last());
        let kept = first_of_each(all.drop_last());
        assert(names_in(gists(kept)) =~= keys_of(kept));
        lemma_gists_push(kept, all.last());
    } else {
        assert(gists(first_of_each(all)) =~= once(g));
    }
}

/// What a `Cargo.toml` declares is reported: every crate of its dependency
/// tables that has a version, once, at the lowest version that its requirement
/// names, and from the first table in the order of what ships, what builds and
/// what tests, however the file is ordered.
pub proof fn a_cargo_toml_is_reported_as_it_is_written(all: Seq<TomlLine>, path: Seq<char>)
    requires
        all_wf(all),
    ensures
        gists(cargo_toml_of(file(texts(all)), path)) == once(
            declared_in(all, 0, path) + declared_in(all, 1, path) + declared_in(all, 2, path),
        ),
{
    let src = file(texts(all));
    let b = encode_utf8(src);
    lemma_scan(b, path, all);
    lemma_file(texts(all));
    let s = toml_scan(b, path, lines_of(src));
    assert(gists(table_of(s, 0)) == declared_in(all, 0, path));
    assert(gists(table_of(s, 1)) == declared_in(all, 1, path));
    assert(gists(table_of(s, 2)) == declared_in(all, 2, path));
    lemma_gists_add(s.shipped, s.build);
    lemma_gists_add(s.shipped + s.build, s.dev);
    lemma_once(s.shipped + s.build + s.dev);
}

// ---- tables with dotted names ----

/// What comes last of a text that is split is what stands behind its last
/// separator.
proof fn lemma_last_piece(a: Seq<char>, b: Seq<char>, c: char)
    requires
        lacks(b, c),
    ensures
        split_of(a + seq![c] + b, Class::One(c)).last() == b,
    decreases a.len(),
{
    let s = a + seq![c] + b;
    let k = Class::One(c);
    if exists|i: int| 0 <= i < a.len() && a[i] == c {
        crate::text::lemma_first_of_is(a, k);
        let n = match first_of(a, k) {
            Some(n) => n,
            None => {
                let i = choose|i: int| 0 <= i < a.len() && a[i] == c;
                assert(!k.has(a[i]));
                0
            },
        };
        assert forall|i: int| 0 <= i < n implies !k.has(#[trigger] s[i]) by {
            assert(s[i] == a[i]);
        }
        assert(s[n as int] == a[n as int]);
        lemma_first_of(s, k, n);
        let rest = a.skip(n as int + 1);
        assert(s.skip(n as int + 1) =~= rest + seq![c] + b);
        lemma_last_piece(rest, b, c);
        crate::text::lemma_split_nonempty(rest + seq![c] + b, k);
    } else {
        assert forall|i: int| 0 <= i < a.len() implies !k.has(#[trigger] s[i]) by {
            assert(s[i] == a[i]);
        }
        assert(s[a.len() as int] == c);
        lemma_first_of(s, k, a.len());
        assert(s.skip(a.len() as int + 1) =~= b);
        assert forall|i: int| 0 <= i < b.len() implies !k.has(#[trigger] b[i]) by {}
        lemma_first_of(b, k, b.len());
        assert(split_of(b, k) =~= seq![b]);
    }
}

/// A table is known by the last part of its name, whatever stands before that:
/// what a target depends on counts, and the table of one dependency is none.
pub proof fn a_table_is_known_by_its_last_part(front: Seq<char>, t: Seq<char>, i: int)
    requires
        is_key(t),
        front.len() > 0,
        front[0] != '[' && front[0] != ']',
        0 <= i < 3,
    ensures
        section_of(seq!['['] + front + seq!['.'] + t + seq![']']) == Some(i) <==> t == title(i),
        section_of(seq!['['] + front + seq!['.'] + t + seq![']']) == section_of(
            seq!['['] + t + seq![']'],
        ),
{
    lemma_section(0);
    lemma_section(1);
    lemma_section(2);
    let body = front + seq!['.'] + t;
    let header = seq!['['] + front + seq!['.'] + t + seq![']'];
    let inner = body + seq![']'];
    assert(header =~= seq!['['] + inner);
    assert(inner[0] == front[0]);
    assert(body[body.len() - 1] == t[t.len() - 1]);
    assert(!Class::Bracket.has(t[t.len() - 1]));
    lemma_trim_front(seq!['['], inner, Class::Bracket);
    lemma_trim_back(body, seq![']'], Class::Bracket);
    assert(lacks(t, '.'));
    lemma_last_piece(front, t, '.');
    assert(!is_space(t[0]) && !is_space(t[t.len() - 1]));
    lemma_trimmed(t, Class::Space);
    lemma_title(t);
    reveal_strlit("dependencies");
    reveal_strlit("build-dependencies");
    reveal_strlit("dev-dependencies");
    assert("dependencies"@.len() == 12 && "build-dependencies"@.len() == 18
        && "dev-dependencies"@.len() == 16);
}

// ---- a crate's own name ----

/// A table opens or closes the one that names the crate.
pub proof fn the_package_table_names_the_crate(
    t: Seq<char>,
    rest: Seq<Seq<char>>,
    in_package: bool,
)
    requires
        is_key(t),
    ensures
        own_name(seq![line(seq!['['] + t + seq![']'])] + rest, in_package) == own_name(
            rest,
            t == "package"@,
        ),
{
    let s = seq!['['] + t + seq![']'];
    let all = seq![line(s)] + rest;
    assert(all[0] == line(s));
    assert(all.skip(1) =~= rest);
    lemma_header_text(t);
    assert(!Class::Bracket.has(t[0]) && !Class::Bracket.has(t[t.len() - 1]));
    let inner = t + seq![']'];
    assert(s =~= seq!['['] + inner);
    assert(inner[0] == t[0]);
    lemma_trim_front(seq!['['], inner, Class::Bracket);
    lemma_trim_back(t, seq![']'], Class::Bracket);
    assert(!is_space(t[0]) && !is_space(t[t.len() - 1]));
    lemma_trimmed(t, Class::Space);
}

/// The first name in the package table is the crate's, whatever follows; a name
/// in another table is not.
pub proof fn the_first_name_is_the_crates(name: Seq<char>, rest: Seq<Seq<char>>)
    requires
        lacks(name, '"'),
        lacks(name, '\n'),
    ensures
        own_name(seq![line("name = "@ + quoted(name))] + rest, true) == Some(name),
        own_name(seq![line("name = "@ + quoted(name))] + rest, false) == own_name(rest, false),
{
    reveal_strlit("name = ");
    reveal_strlit("name");
    reveal_strlit(" ");
    let s = "name = "@ + quoted(name);
    let all = seq![line(s)] + rest;
    assert(all[0] == line(s));
    assert(all.skip(1) =~= rest);
    assert(tidy("name = "@));
    assert(tidy(Seq::<char>::empty()));
    lemma_one_value("name = "@, name, Seq::empty());
    assert(s + Seq::<char>::empty() =~= s);
    assert(s[0] == 'n');
    lemma_trimmed(s, Class::Space);
    assert(s.take(4) =~= "name"@);
    let tail = s.skip(4);
    let more = "="@ + (" "@ + quoted(name));
    reveal_strlit("=");
    assert(tail =~= " "@ + more);
    assert(is_space(' '));
    lemma_trim_front(" "@, more, Class::Space);
    assert(more.skip(1) =~= " "@ + quoted(name));
    lemma_quoted_in(" "@, name, Seq::empty());
    let value = " "@ + quoted(name);
    assert(value + Seq::<char>::empty() =~= value);
}

/// Any other entry leaves the crate's name to be found behind it.
pub proof fn other_entries_do_not_name_the_crate(
    l: TomlLine,
    rest: Seq<Seq<char>>,
    in_package: bool,
)
    requires
        l.wf(),
        is_entry(l),
        key_of(l) != "name"@,
    ensures
        own_name(seq![line(l.text())] + rest, in_package) == own_name(rest, in_package),
{
    reveal_strlit("name");
    reveal_strlit(" =");
    let s = l.text();
    let k = key_of(l);
    let all = seq![line(s)] + rest;
    assert(all[0] == line(s));
    assert(all.skip(1) =~= rest);
    lemma_entry_text(l);
    lemma_trimmed(s, Class::Space);
    if "name"@.is_prefix_of(s) {
        assert(s.take(4) =~= "name"@);
        assert forall|i: int| 0 <= i < 4 implies #[trigger] s[i] == "name"@[i] by {
            assert(s.take(4)[i] == s[i]);
        }
        if k.len() < 4 {
            assert(s[k.len() as int] == ' ');
            assert("name"@[k.len() as int] != ' ');
        } else if k.len() == 4 {
            assert forall|i: int| 0 <= i < 4 implies k[i] == "name"@[i] by {
                assert(s[i] == k[i]);
            }
            assert(k =~= "name"@);
        } else {
            let tail = s.skip(4);
            assert(tail[0] == k[4]);
            lemma_leading(tail, Class::Space, 0);
            assert(trim_start_of(tail, Class::Space) =~= tail);
        }
    }
}

// ---- headers ----

/// A header starts a table, whatever stands in its brackets, and declares
/// nothing.
pub proof fn a_header_starts_a_table(b: Seq<u8>, path: Seq<char>, s: TomlScan, h: Seq<char>)
    requires
        h.len() > 0,
        h[0] == '[',
        tidy(h),
        !is_space(h[h.len() - 1]),
    ensures
        toml_step(b, path, s, line(h)).section == section_of(h),
        toml_step(b, path, s, line(h)).shipped == s.shipped,
        toml_step(b, path, s, line(h)).build == s.build,
        toml_step(b, path, s, line(h)).dev == s.dev,
{
    lemma_bare_line(h);
    lemma_trimmed(h, Class::Space);
}

/// A table that is one of several of its name, in two brackets, is known as one
/// in one bracket is.
pub proof fn two_brackets_are_as_good_as_one(t: Seq<char>)
    requires
        is_key(t),
    ensures
        section_of(seq!['[', '['] + t + seq![']', ']']) == section_of(seq!['['] + t + seq![']']),
{
    let header = seq!['[', '['] + t + seq![']', ']'];
    assert(!Class::Bracket.has(t[0]) && !Class::Bracket.has(t[t.len() - 1]));
    let inner = t + seq![']', ']'];
    assert(header =~= seq!['[', '['] + inner);
    assert(inner[0] == t[0]);
    lemma_trim_front(seq!['[', '['], inner, Class::Bracket);
    lemma_trim_back(t, seq![']', ']'], Class::Bracket);
    let one = seq!['['] + t + seq![']'];
    let rest = t + seq![']'];
    assert(one =~= seq!['['] + rest);
    assert(rest[0] == t[0]);
    lemma_trim_front(seq!['['], rest, Class::Bracket);
    lemma_trim_back(t, seq![']'], Class::Bracket);
}

} // verus!
