//! What a requirements file that is written down is read as.
use crate::laws::reports::{gist, gists, lemma_gists_push, reported, Gist};
use crate::laws::writing::{
    blank, lacks, lemma_before, lemma_find_none, lemma_found, lemma_lines_concat, lemma_one_line,
    lemma_trim_back, lemma_trim_front, lemma_trimmed, line, whole_lines,
};
use crate::manifest::python::{
    after_extras, pip_scan, pip_step, requirement_of, requirements_of, run_of, specifier_of,
    strict_bound, stripped, target_of, targets_of, unsupported, upper_bound, PipScan,
};
use crate::model::{Ecosystem, ExtractedView};
use crate::text::{
    before, first_of, is_alnum, is_space, lemma_first_of, lemma_first_of_is, lemma_trailing_is,
    lines_of, trailing, trim_end_of, trim_of, trim_start_of, Class,
};
use vstd::prelude::*;
use vstd::utf8::encode_utf8;

verus! {

// ---- one requirement ----

/// Whether a text can name a Python distribution.
pub open spec fn names_distribution(s: Seq<char>) -> bool {
    s.len() > 0 && s[0] != '-' && forall|i: int|
        0 <= i < s.len() ==> is_alnum(#[trigger] s[i]) || s[i] == '-' || s[i] == '_' || s[i] == '.'
}

/// Whether a text can be a Python version: it starts with a letter or a digit.
pub open spec fn spells_version(s: Seq<char>) -> bool {
    s.len() > 0 && is_alnum(s[0]) && forall|i: int|
        0 <= i < s.len() ==> is_alnum(#[trigger] s[i]) || s[i] == '.' || s[i] == '-' || s[i] == '+'
            || s[i] == '!'
}

/// Whether a text is a comparator that does not bound from above or exclude.
pub open spec fn bounds_below(s: Seq<char>) -> bool {
    s.len() > 0 && forall|i: int|
        0 <= i < s.len() ==> #[trigger] s[i] == '=' || s[i] == '>' || s[i] == '~'
}

/// Extras in their brackets, where there are any.
pub open spec fn bracketed(extras: Option<Seq<char>>) -> Seq<char> {
    match extras {
        Some(x) => seq!['['] + x + seq![']'],
        None => seq![],
    }
}

/// The parts of a line that asks for a package.
pub struct Requirement {
    pub lead: Seq<char>,
    pub name: Seq<char>,
    pub extras: Option<Seq<char>>,
    pub gap: Seq<char>,
    pub comparator: Seq<char>,
    pub space: Seq<char>,
    pub version: Seq<char>,
    pub rest: Seq<char>,
    /// An environment marker or a comment, with what it starts with.
    pub trailer: Seq<char>,
}

pub open spec fn inline(s: Seq<char>) -> bool {
    lacks(s, '\n')
}

impl Requirement {
    pub open spec fn heart(self) -> Seq<char> {
        self.name + bracketed(self.extras) + self.gap + self.comparator + self.space + self.version
    }

    pub open spec fn text(self) -> Seq<char> {
        self.lead + self.heart() + self.rest + self.trailer
    }

    pub open spec fn wf(self) -> bool {
        &&& names_distribution(self.name)
        &&& self.extras matches Some(x) ==> lacks(x, ']') && lacks(x, '#') && lacks(x, ';')
            && inline(x)
        &&& bounds_below(self.comparator)
        &&& spells_version(self.version)
        &&& blank(self.lead) && blank(self.gap) && blank(self.space) && blank(self.rest)
        &&& inline(self.lead) && inline(self.gap) && inline(self.space) && inline(self.rest)
        &&& inline(self.trailer)
        &&& self.trailer.len() > 0 ==> self.trailer[0] == ';' || self.trailer[0] == '#'
        &&& self.text().last() != '\\' && self.text().last() != '\r'
    }
}

proof fn lemma_core(q: Requirement)
    requires
        q.wf(),
    ensures
        q.heart().len() > 0,
        !is_space(q.heart()[0]),
        !is_space(q.heart()[q.heart().len() - 1]),
        lacks(q.heart(), '#'),
        lacks(q.heart(), ';'),
        inline(q.heart()),
        inline(q.text()),
{
    let s = q.heart();
    let e = bracketed(q.extras);
    assert(s[0] == q.name[0]);
    assert(s[s.len() - 1] == q.version[q.version.len() - 1]);
    assert forall|i: int| 0 <= i < s.len() implies #[trigger] s[i] != '#' && s[i] != ';' && s[i]
        != '\n' by {
        let n1 = q.name.len();
        let n2 = n1 + e.len();
        let n3 = n2 + q.gap.len();
        let n4 = n3 + q.comparator.len();
        let n5 = n4 + q.space.len();
        if i < n1 {
            assert(s[i] == q.name[i]);
        } else if i < n2 {
            assert(s[i] == e[i - n1]);
            let x = q.extras->Some_0;
            if 0 < i - n1 && i - n1 < x.len() + 1 {
                assert(e[i - n1] == x[i - n1 - 1]);
            }
        } else if i < n3 {
            assert(s[i] == q.gap[i - n2]);
        } else if i < n4 {
            assert(s[i] == q.comparator[i - n3]);
        } else if i < n5 {
            assert(s[i] == q.space[i - n4]);
        } else {
            assert(s[i] == q.version[i - n5]);
        }
    }
    let t = q.text();
    assert forall|i: int| 0 <= i < t.len() implies #[trigger] t[i] != '\n' by {
        let n1 = q.lead.len();
        let n2 = n1 + s.len();
        let n3 = n2 + q.rest.len();
        if i < n1 {
            assert(t[i] == q.lead[i]);
        } else if i < n2 {
            assert(t[i] == s[i - n1]);
        } else if i < n3 {
            assert(t[i] == q.rest[i - n2]);
        } else {
            assert(t[i] == q.trailer[i - n3]);
        }
    }
}

/// What is left of a requirement without its comment, marker and surroundings.
proof fn lemma_body(q: Requirement)
    requires
        q.wf(),
    ensures
        ({
            let trimmed = stripped(q.text());
            let body = before(trimmed, Class::One(';'));
            &&& trimmed.len() > 0 && trimmed[0] == q.name[0]
            &&& body == q.heart() || body == q.heart() + q.rest
        }),
{
    lemma_core(q);
    let heart = q.heart();
    let hash = Class::One('#');
    let semi = Class::One(';');
    let head = q.lead + heart + q.rest;
    assert(forall|i: int| 0 <= i < head.len() ==> !hash.has(#[trigger] head[i])) by {
        assert forall|i: int| 0 <= i < head.len() implies !hash.has(#[trigger] head[i]) by {
            let n1 = q.lead.len();
            let n2 = n1 + heart.len();
            if i < n1 {
                assert(head[i] == q.lead[i]);
            } else if i < n2 {
                assert(head[i] == heart[i - n1]);
            } else {
                assert(head[i] == q.rest[i - n2]);
            }
        }
    }
    assert(q.text() =~= head + q.trailer);
    if q.trailer.len() > 0 && q.trailer[0] == ';' {
        // The marker runs up to a comment, if there is one.
        let marker = before(q.trailer, hash);
        lemma_first_of_is(q.trailer, hash);
        assert(marker.len() > 0 && marker[0] == ';');
        let t = q.text();
        match first_of(q.trailer, hash) {
            Some(n) => {
                assert forall|j: int| 0 <= j < head.len() + n implies !hash.has(#[trigger] t[j]) by {
                    if j < head.len() {
                        assert(t[j] == head[j]);
                    } else {
                        assert(t[j] == q.trailer[j - head.len()]);
                    }
                }
                assert(t[(head.len() + n) as int] == q.trailer[n as int]);
                lemma_first_of(t, hash, head.len() + n);
                assert(before(t, hash) =~= head + marker);
            },
            None => {
                assert forall|j: int| 0 <= j < t.len() implies !hash.has(#[trigger] t[j]) by {
                    if j < head.len() {
                        assert(t[j] == head[j]);
                    } else {
                        assert(t[j] == q.trailer[j - head.len()]);
                    }
                }
                lemma_first_of(t, hash, t.len());
                assert(before(t, hash) =~= head + marker);
            },
        }
        let kept = head + marker;
        lemma_trailing_is(kept, Class::Space);
        let n = trailing(kept, Class::Space);
        assert(kept[head.len() as int] == ';');
        assert(n < marker.len()) by {
            if n >= marker.len() {
                assert(Class::Space.has(kept[head.len() as int]));
            }
        }
        let cut = marker.take(marker.len() - n);
        assert(trim_end_of(kept, Class::Space) =~= head + cut);
        assert(cut[0] == ';');
        let inner = heart + q.rest + cut;
        assert(head + cut =~= q.lead + inner);
        assert(inner[0] == heart[0]);
        lemma_trim_front(q.lead, inner, Class::Space);
        let front = heart + q.rest;
        assert forall|i: int| 0 <= i < front.len() implies !semi.has(#[trigger] front[i]) by {
            if i < heart.len() {
                assert(front[i] == heart[i]);
            } else {
                assert(front[i] == q.rest[i - heart.len()]);
            }
        }
        assert(inner =~= front + cut);
        lemma_before(front, cut, semi);
        assert(inner[0] == q.name[0]);
    } else {
        lemma_before(head, q.trailer, hash);
        assert(head =~= (q.lead + heart) + q.rest);
        let s = q.lead + heart;
        assert(s[s.len() - 1] == heart[heart.len() - 1]);
        lemma_trim_back(s, q.rest, Class::Space);
        lemma_trim_front(q.lead, heart, Class::Space);
        lemma_before(heart, seq![], semi);
        assert(heart + Seq::<char>::empty() =~= heart);
        assert(heart[0] == q.name[0]);
    }
}

/// What stands behind the extras, and that it names a lowest version.
proof fn lemma_specifier(q: Requirement, g: Seq<char>)
    requires
        q.wf(),
        blank(g),
    ensures
        ({
            let rest = q.comparator + q.space + q.version + g;
            let tail = q.version + g;
            &&& !unsupported(rest)
            &&& specifier_of(rest) == Some((q.comparator, tail))
            &&& run_of(tail, Class::NotVersion) == q.version.len()
            &&& tail.take(q.version.len() as int) == q.version
        }),
{
    let rest = q.comparator + q.space + q.version + g;
    let tail = q.version + g;
    let c = q.comparator.len();
    assert forall|i: int| 0 <= i < rest.len() implies #[trigger] rest[i] != '*' && rest[i] != ','
        && rest[i] != '<' && (rest[i] == '!' && i + 1 < rest.len() ==> rest[i + 1] != '=') by {
        let n2 = c + q.space.len();
        let n3 = n2 + q.version.len();
        if i < c {
            assert(rest[i] == q.comparator[i]);
        } else if i < n2 {
            assert(rest[i] == q.space[i - c]);
        } else if i < n3 {
            assert(rest[i] == q.version[i - n2]);
            if i + 1 < n3 {
                assert(rest[i + 1] == q.version[i + 1 - n2]);
            } else if i + 1 < rest.len() {
                assert(rest[i + 1] == g[i + 1 - n3]);
            }
        } else {
            assert(rest[i] == g[i - n3]);
        }
    }
    lemma_first_of(rest, Class::One('*'), rest.len());
    lemma_first_of(rest, Class::One(','), rest.len());
    reveal_strlit("!=");
    assert forall|j: int| 0 <= j && j + "!="@.len() <= rest.len() implies #[trigger] rest.subrange(
        j,
        j + "!="@.len(),
    ) != "!="@ by {
        let part = rest.subrange(j, j + "!="@.len());
        if part == "!="@ {
            assert(part[0] == rest[j] && part[1] == rest[j + 1]);
            assert("!="@[0] == '!' && "!="@[1] == '=');
        }
    }
    lemma_find_none(rest, "!="@, 0);
    assert(!strict_bound(rest));
    let k = Class::NotComparator;
    let behind = q.space + q.version + g;
    assert(rest =~= q.comparator + behind);
    assert(k.has(behind[0])) by {
        if q.space.len() > 0 {
            assert(behind[0] == q.space[0]);
        } else {
            assert(behind[0] == q.version[0]);
        }
    }
    lemma_before(q.comparator, behind, k);
    let ops = rest.take(c as int);
    assert(ops =~= q.comparator);
    lemma_first_of(ops, Class::One('<'), ops.len());
    assert(!upper_bound(rest));
    assert(rest.skip(c as int) =~= q.space + tail);
    assert(tail[0] == q.version[0]);
    lemma_trim_front(q.space, tail, Class::Space);
    let v = Class::NotVersion;
    if g.len() > 0 {
        assert(is_space(g[0]));
    }
    lemma_before(q.version, g, v);
    assert(tail.take(q.version.len() as int) =~= q.version);
    if g.len() == 0 {
        assert(tail =~= q.version);
    }
}

proof fn lemma_after_name(q: Requirement, g: Seq<char>)
    requires
        q.wf(),
        blank(g),
    ensures
        ({
            let body = q.heart() + g;
            let end = run_of(body, Class::NotName) as int;
            let rest = q.comparator + q.space + q.version + g;
            &&& end == q.name.len()
            &&& body.take(end) == q.name
            &&& after_extras(trim_start_of(body.skip(end), Class::Space)) == Some(rest)
        }),
{
    let body = q.heart() + g;
    let e = bracketed(q.extras);
    let rest = q.comparator + q.space + q.version + g;
    let behind = e + q.gap + rest;
    assert(body =~= q.name + behind);
    assert(behind[0] == (if e.len() > 0 {
        e[0]
    } else if q.gap.len() > 0 {
        q.gap[0]
    } else {
        q.comparator[0]
    }));
    assert(Class::NotName.has(behind[0]));
    lemma_before(q.name, behind, Class::NotName);
    assert(body.take(q.name.len() as int) =~= q.name);
    assert(body.skip(q.name.len() as int) =~= behind);
    assert(rest[0] == q.comparator[0]);
    match q.extras {
        Some(x) => {
            assert(behind[0] == '[');
            lemma_trim_front(seq![], behind, Class::Space);
            assert(seq![] + behind =~= behind);
            let inside = behind.skip(1);
            let close = seq![']'] + q.gap + rest;
            assert(inside =~= x + close);
            assert(close[0] == ']');
            lemma_before(x, close, Class::One(']'));
            assert(behind.skip(x.len() as int + 2) =~= q.gap + rest);
            lemma_trim_front(q.gap, rest, Class::Space);
        },
        None => {
            assert(behind =~= q.gap + rest);
            lemma_trim_front(q.gap, rest, Class::Space);
        },
    }
}

proof fn lemma_requirement(
    bytes: Seq<u8>,
    path: Seq<char>,
    q: Requirement,
    start: int,
    contiguous: bool,
)
    requires
        q.wf(),
    ensures
        requirement_of(bytes, path, q.text(), start, contiguous) matches Some(x) && gist(x)
            == reported(
            Ecosystem::PyPI,
            q.name,
            q.version,
            path,
            seq![],
            q.comparator != "=="@ && q.comparator != "==="@,
        ),
{
    lemma_body(q);
    lemma_core(q);
    let text = q.text();
    let body = before(stripped(text), Class::One(';'));
    let g = if body == q.heart() { Seq::<char>::empty() } else { q.rest };
    assert(q.heart() + Seq::<char>::empty() =~= q.heart());
    lemma_after_name(q, g);
    lemma_specifier(q, g);
    let at = q.lead.len();
    assert(text.subrange(at as int, (at + q.name.len()) as int) =~= q.name);
    lemma_found(text, q.name, 0, at);
}

/// A requirement is reported as it is written: the package it names at the
/// version that its pin or lower bound names, whatever extras stand behind the
/// name, however it is spaced, and whatever marker or comment follows. Only an
/// exact pin is no range.
pub proof fn a_requirement_is_reported_as_it_is_written(q: Requirement, path: Seq<char>)
    requires
        q.wf(),
    ensures
        gists(requirements_of(line(q.text()), path)) == seq![
            reported(
                Ecosystem::PyPI,
                q.name,
                q.version,
                path,
                seq![],
                q.comparator != "=="@ && q.comparator != "==="@,
            ),
        ],
{
    lemma_core(q);
    let text = q.text();
    let src = line(text);
    let bytes = encode_utf8(src);
    lemma_one_line(text);
    let all = lines_of(src);
    assert(all.drop_last() =~= seq![]);
    assert(all.last() == src);
    let s0 = pip_scan(bytes, path, all.drop_last());
    lemma_line_text(text);
    assert(s0.pending + text =~= text);
    lemma_requirement(bytes, path, q, 0, true);
    let x = requirement_of(bytes, path, text, 0, true)->Some_0;
    assert(pip_step(bytes, path, s0, src).found == s0.found.push(x));
    lemma_gists_push(s0.found, x);
    assert(gists(s0.found) =~= seq![]);
    assert(gists(requirements_of(src, path)) =~= seq![gist(x)]);
}

/// Extras make no difference to what is asked for.
pub proof fn extras_make_no_difference(q: Requirement, extras: Option<Seq<char>>, path: Seq<char>)
    requires
        q.wf(),
        (Requirement { extras, ..q }).wf(),
    ensures
        gists(requirements_of(line(q.text()), path)) == gists(
            requirements_of(line((Requirement { extras, ..q }).text()), path),
        ),
        requirements_of(line(q.text()), path).len() == 1,
{
    a_requirement_is_reported_as_it_is_written(q, path);
    a_requirement_is_reported_as_it_is_written(Requirement { extras, ..q }, path);
    assert(gists(requirements_of(line(q.text()), path)).len() == 1);
}

/// The text of a line without its end.
proof fn lemma_line_text(text: Seq<char>)
    requires
        text.len() > 0 ==> text.last() != '\n' && text.last() != '\r',
    ensures
        trim_end_of(line(text), Class::LineEnd) == text,
{
    lemma_trim_back(text, seq!['\n'], Class::LineEnd);
}

// ---- several lines ----

/// Whether the last line of a text is not carried on into the next.
pub open spec fn not_continued(s: Seq<char>) -> bool {
    whole_lines(s) && (s.len() > 1 ==> s[s.len() - 2] != '\\' && s[s.len() - 2] != '\r')
}

proof fn lemma_last_line(s: Seq<char>)
    requires
        s.len() > 0,
        s.last() == '\n',
    ensures
        lines_of(s).len() > 0,
        ({
            let l = lines_of(s).last();
            &&& l.len() > 0
            &&& l.last() == '\n'
            &&& l.len() > 1 ==> s.len() > 1 && l[l.len() - 2] == s[s.len() - 2]
        }),
    decreases s.len(),
{
    let k = Class::One('\n');
    lemma_first_of_is(s, k);
    assert(k.has(s[s.len() - 1]));
    let n = first_of(s, k)->Some_0;
    let rest = s.skip(n as int + 1);
    if rest.len() > 0 {
        lemma_last_line(rest);
        assert(lines_of(s).last() == lines_of(rest).last());
    } else {
        assert(lines_of(rest) =~= seq![]);
        assert(lines_of(s) =~= seq![s.take(n as int + 1)]);
        assert(s.take(n as int + 1) =~= s);
    }
}

proof fn lemma_nothing_pending(bytes: Seq<u8>, path: Seq<char>, s: Seq<char>)
    requires
        not_continued(s),
    ensures
        pip_scan(bytes, path, lines_of(s)).pending.len() == 0,
{
    if s.len() > 0 {
        lemma_last_line(s);
        let l = lines_of(s).last();
        let text = trim_end_of(l, Class::LineEnd);
        lemma_trailing_is(l, Class::LineEnd);
        if text.len() > 0 && text.last() == '\\' {
            let n = trailing(l, Class::LineEnd);
            assert(n >= 1) by {
                if n == 0 {
                    assert(Class::LineEnd.has(l[l.len() - 1]));
                }
            }
            assert(text.last() == l[l.len() - n - 1]);
            if n > 1 {
                assert(Class::LineEnd.has(l[l.len() - 2]));
                lemma_inner(s);
            }
        }
    }
}

/// A line feed only ends a line.
proof fn lemma_inner(s: Seq<char>)
    ensures
        forall|i: int, j: int|
            0 <= i < lines_of(s).len() && 0 <= j < lines_of(s)[i].len() - 1 ==> (
            #[trigger] lines_of(s)[i][j]) != '\n',
    decreases s.len(),
{
    if s.len() > 0 {
        let k = Class::One('\n');
        lemma_first_of_is(s, k);
        match first_of(s, k) {
            Some(n) => {
                let rest = s.skip(n as int + 1);
                lemma_inner(rest);
                let all = lines_of(s);
                assert forall|i: int, j: int|
                    0 <= i < all.len() && 0 <= j < all[i].len() - 1 implies (#[trigger] all[i][j])
                    != '\n' by {
                    if i > 0 {
                        assert(all[i] == lines_of(rest)[i - 1]);
                        assert(lines_of(rest)[i - 1][j] != '\n');
                    } else {
                        assert(all[0] == s.take(n as int + 1));
                        assert(!k.has(s[j]));
                    }
                }
            },
            None => {
                let all = lines_of(s);
                assert(all =~= seq![s]);
                assert forall|i: int, j: int|
                    0 <= i < all.len() && 0 <= j < all[i].len() - 1 implies (#[trigger] all[i][j])
                    != '\n' by {
                    assert(!k.has(s[j]));
                }
            },
        }
    }
}

/// Two scans that agree on what is pending go on alike.
pub open spec fn alike(s: PipScan, t: PipScan, before: Seq<Gist>) -> bool {
    s.pending == t.pending && gists(s.found) == before + gists(t.found)
}

proof fn lemma_gist_of_requirement(
    b: Seq<u8>,
    c: Seq<u8>,
    path: Seq<char>,
    text: Seq<char>,
    i: int,
    j: int,
    x: bool,
    y: bool,
)
    ensures
        match (requirement_of(b, path, text, i, x), requirement_of(c, path, text, j, y)) {
            (Some(s), Some(t)) => gist(s) == gist(t),
            (None, None) => true,
            _ => false,
        },
{
}

proof fn lemma_goes_on(
    b: Seq<u8>,
    c: Seq<u8>,
    path: Seq<char>,
    front: Seq<Seq<char>>,
    back: Seq<Seq<char>>,
)
    requires
        pip_scan(b, path, front).pending.len() == 0,
    ensures
        alike(
            pip_scan(b, path, front + back),
            pip_scan(c, path, back),
            gists(pip_scan(b, path, front).found),
        ),
    decreases back.len(),
{
    let before = gists(pip_scan(b, path, front).found);
    if back.len() == 0 {
        assert(front + back =~= front);
        assert(pip_scan(b, path, front).pending =~= seq![]);
        assert(before + gists(Seq::<ExtractedView>::empty()) =~= before);
    } else {
        let all = front + back;
        lemma_goes_on(b, c, path, front, back.drop_last());
        assert(all.drop_last() =~= front + back.drop_last());
        let l = back.last();
        assert(all.last() == l);
        let s = pip_scan(b, path, all.drop_last());
        let t = pip_scan(c, path, back.drop_last());
        let text = trim_end_of(l, Class::LineEnd);
        if text.len() > 0 && text.last() == '\\' {
        } else {
            let whole = s.pending + text;
            let i = if s.pending.len() == 0 { s.offset } else { s.pending_start };
            let j = if t.pending.len() == 0 { t.offset } else { t.pending_start };
            lemma_gist_of_requirement(
                b,
                c,
                path,
                whole,
                i as int,
                j as int,
                i == s.offset,
                j == t.offset,
            );
            match requirement_of(b, path, whole, i as int, i == s.offset) {
                Some(x) => {
                    let y = requirement_of(c, path, whole, j as int, j == t.offset)->Some_0;
                    lemma_gists_push(s.found, x);
                    lemma_gists_push(t.found, y);
                    assert((before + gists(t.found)).push(gist(y)) =~= before + gists(
                        t.found,
                    ).push(gist(y)));
                },
                None => {},
            }
        }
    }
}

/// A requirements file asks for what its parts ask for, in order: no line
/// takes anything away from another, and none is read twice.
pub proof fn requirements_add_up(a: Seq<char>, b: Seq<char>, path: Seq<char>)
    requires
        not_continued(a),
    ensures
        gists(requirements_of(a + b, path)) == gists(requirements_of(a, path)) + gists(
            requirements_of(b, path),
        ),
{
    let bytes = encode_utf8(a + b);
    lemma_lines_concat(a, b);
    lemma_nothing_pending(bytes, path, a);
    lemma_goes_on(bytes, encode_utf8(b), path, lines_of(a), lines_of(b));
    let none = Seq::<Seq<char>>::empty();
    lemma_goes_on(bytes, encode_utf8(a), path, none, lines_of(a));
    assert(none + lines_of(a) =~= lines_of(a));
    assert(gists(pip_scan(bytes, path, none).found) + gists(
        pip_scan(encode_utf8(a), path, lines_of(a)).found,
    ) =~= gists(pip_scan(encode_utf8(a), path, lines_of(a)).found));
}

/// A requirement that is carried on over a line end is the one that stands on
/// one line.
pub proof fn a_backslash_carries_a_requirement_on(x: Seq<char>, y: Seq<char>, path: Seq<char>)
    requires
        inline(x),
        inline(y),
        (x + y).len() > 0,
        (x + y).last() != '\\' && (x + y).last() != '\r',
        y.len() > 0,
    ensures
        gists(requirements_of(line(x + seq!['\\']) + line(y), path)) == gists(
            requirements_of(line(x + y), path),
        ),
{
    let first = x + seq!['\\'];
    let src = line(first) + line(y);
    let bytes = encode_utf8(src);
    let whole = x + y;
    assert(y.last() == whole.last());
    assert(forall|i: int| 0 <= i < first.len() ==> #[trigger] first[i] != '\n') by {
        assert forall|i: int| 0 <= i < first.len() implies #[trigger] first[i] != '\n' by {
            if i < x.len() {
                assert(first[i] == x[i]);
            }
        }
    }
    assert forall|i: int| 0 <= i < whole.len() implies #[trigger] whole[i] != '\n' by {
        if i < x.len() {
            assert(whole[i] == x[i]);
        } else {
            assert(whole[i] == y[i - x.len()]);
        }
    }
    lemma_one_line(first);
    lemma_one_line(y);
    lemma_one_line(whole);
    lemma_lines_concat(line(first), line(y));
    let all = lines_of(src);
    assert(all =~= seq![line(first), line(y)]);
    assert(y[y.len() - 1] != '\n');
    assert(whole[whole.len() - 1] != '\n');
    lemma_line_text(first);
    lemma_line_text(y);
    lemma_line_text(whole);
    let s0 = pip_scan(bytes, path, seq![]);
    assert(all.drop_last() =~= seq![line(first)]);
    assert(all.drop_last().drop_last() =~= seq![]);
    let s1 = pip_scan(bytes, path, all.drop_last());
    assert(s1 == pip_step(bytes, path, s0, line(first)));
    assert(first.drop_last() =~= x);
    assert(s1.pending =~= x);
    let once = lines_of(line(whole));
    assert(once.drop_last() =~= seq![]);
    let t0 = pip_scan(encode_utf8(line(whole)), path, seq![]);
    assert(t0.pending + whole =~= whole);
    let i = if s1.pending.len() == 0 { s1.offset } else { s1.pending_start };
    lemma_gist_of_requirement(
        bytes,
        encode_utf8(line(whole)),
        path,
        whole,
        i as int,
        0,
        i == s1.offset,
        true,
    );
    assert(s1.found =~= t0.found);
    match requirement_of(bytes, path, whole, i as int, i == s1.offset) {
        Some(a) => {
            let b = requirement_of(encode_utf8(line(whole)), path, whole, 0, true)->Some_0;
            lemma_gists_push(s1.found, a);
            lemma_gists_push(t0.found, b);
        },
        None => {},
    }
}

// ---- lines that ask for nothing ----

proof fn lemma_single(text: Seq<char>, path: Seq<char>)
    requires
        inline(text),
        text.len() > 0 ==> text.last() != '\\' && text.last() != '\r',
        requirement_of(encode_utf8(line(text)), path, text, 0, true) is None,
    ensures
        requirements_of(line(text), path).len() == 0,
{
    let src = line(text);
    lemma_one_line(text);
    let all = lines_of(src);
    assert(all.drop_last() =~= seq![]);
    if text.len() > 0 {
        assert(text[text.len() - 1] != '\n');
    }
    lemma_line_text(text);
    let s0 = pip_scan(encode_utf8(src), path, seq![]);
    assert(s0.pending + text =~= text);
}

/// Options, comments and blank lines ask for no package.
pub proof fn an_option_or_a_comment_asks_for_nothing(
    lead: Seq<char>,
    text: Seq<char>,
    path: Seq<char>,
)
    requires
        blank(lead),
        inline(lead + text),
        text.len() > 0 ==> text[0] == '-' || text[0] == '#',
        (lead + text).len() > 0 ==> (lead + text).last() != '\\' && (lead + text).last() != '\r',
    ensures
        requirements_of(line(lead + text), path).len() == 0,
{
    let whole = lead + text;
    let hash = Class::One('#');
    assert forall|i: int| 0 <= i < lead.len() implies !hash.has(#[trigger] lead[i]) by {}
    if text.len() == 0 || text[0] == '#' {
        lemma_before(lead, text, hash);
        lemma_trim_back(seq![], lead, Class::Space);
        assert(seq![] + lead =~= lead);
        lemma_trimmed(seq![], Class::Space);
        assert(stripped(whole) =~= seq![]);
    } else {
        let kept = before(whole, hash);
        lemma_first_of_is(whole, hash);
        assert(whole[lead.len() as int] == '-');
        assert(kept.len() > lead.len()) by {
            if first_of(whole, hash) is Some {
                let n = first_of(whole, hash)->Some_0;
                if n <= lead.len() {
                    if n < lead.len() {
                        assert(whole[n as int] == lead[n as int]);
                    }
                }
            }
        }
        assert(kept[lead.len() as int] == '-');
        lemma_trailing_is(kept, Class::Space);
        let n = trailing(kept, Class::Space);
        assert(kept.len() - n > lead.len()) by {
            if kept.len() - n <= lead.len() {
                assert(Class::Space.has(kept[lead.len() as int]));
            }
        }
        let cut = trim_end_of(kept, Class::Space);
        let rest = cut.skip(lead.len() as int);
        assert(cut =~= lead + rest) by {
            assert forall|i: int| 0 <= i < lead.len() implies cut[i] == lead[i] by {
                assert(kept[i] == whole[i]);
            }
        }
        assert(rest[0] == '-');
        lemma_trim_front(lead, rest, Class::Space);
    }
    lemma_single(whole, path);
}

/// Whether a specifier has no single lowest version: a list, a wildcard, an
/// exclusion or a bound from above.
pub open spec fn no_lowest(spec: Seq<char>) -> bool {
    ||| exists|i: int| 0 <= i < spec.len() && #[trigger] spec[i] == ','
    ||| exists|i: int| 0 <= i < spec.len() && #[trigger] spec[i] == '*'
    ||| exists|i: int| 0 <= i < spec.len() - 1 && #[trigger] spec[i] == '!' && spec[i + 1] == '='
    ||| exists|i: int| 0 <= i < spec.len() - 1 && #[trigger] spec[i] == '<' && spec[i + 1] != '='
    ||| spec.len() > 0 && spec[0] == '<'
    ||| spec.len() == 0
}

/// A requirement without a single lowest version names none: nothing is
/// guessed.
pub proof fn what_names_no_lowest_version_is_not_reported(
    name: Seq<char>,
    gap: Seq<char>,
    spec: Seq<char>,
    path: Seq<char>,
)
    requires
        names_distribution(name),
        blank(gap),
        inline(gap),
        lacks(spec, '#'),
        lacks(spec, ';'),
        inline(spec),
        spec.len() > 0 ==> !is_space(spec[0]) && !is_space(spec.last()) && spec[0] != '['
            && spec.last() != '\\',
        spec.len() > 0 && gap.len() == 0 ==> !is_alnum(spec[0]) && spec[0] != '-' && spec[0] != '_'
            && spec[0] != '.',
        spec.len() == 0 ==> gap.len() == 0,
        no_lowest(spec),
    ensures
        requirements_of(line(name + gap + spec), path).len() == 0,
{
    let text = name + gap + spec;
    assert(text =~= name + (gap + spec));
    assert forall|i: int| 0 <= i < text.len() implies #[trigger] text[i] != '#' && text[i] != ';'
        && text[i] != '\n' by {
        if i < name.len() {
            assert(text[i] == name[i]);
        } else if i < name.len() + gap.len() {
            assert(text[i] == gap[i - name.len()]);
        } else {
            assert(text[i] == spec[i - name.len() - gap.len()]);
        }
    }
    assert(text[0] == name[0]);
    assert(text.last() == (if spec.len() > 0 {
        spec.last()
    } else {
        name.last()
    }));
    assert(!is_space(text[0]) && !is_space(text[text.len() - 1])) by {
        if spec.len() == 0 {
            assert(text[text.len() - 1] == name[name.len() - 1]);
        }
    }
    lemma_before(text, seq![], Class::One('#'));
    assert(text + Seq::<char>::empty() =~= text);
    lemma_trimmed(text, Class::Space);
    lemma_before(text, seq![], Class::One(';'));
    let behind = gap + spec;
    if behind.len() > 0 {
        assert(Class::NotName.has(behind[0])) by {
            if gap.len() > 0 {
                assert(behind[0] == gap[0]);
            } else {
                assert(behind[0] == spec[0]);
            }
        }
    }
    lemma_before(name, behind, Class::NotName);
    assert(run_of(text, Class::NotName) == name.len()) by {
        if behind.len() == 0 {
            assert(text =~= name);
        }
    }
    assert(text.take(name.len() as int) =~= name);
    assert(text.skip(name.len() as int) =~= behind);
    lemma_trim_front(gap, spec, Class::Space);
    if spec.len() == 0 {
        assert(specifier_of(spec) is None);
    } else {
        lemma_unsupported(spec);
    }
    lemma_single(text, path);
}

proof fn lemma_unsupported(spec: Seq<char>)
    requires
        spec.len() > 0,
        no_lowest(spec),
    ensures
        unsupported(spec),
{
    lemma_first_of_is(spec, Class::One(','));
    lemma_first_of_is(spec, Class::One('*'));
    if spec[0] == '<' {
        let k = Class::NotComparator;
        lemma_first_of_is(spec, k);
        let n = run_of(spec, k);
        assert(n > 0) by {
            if first_of(spec, k) == Some(0nat) {
                assert(k.has(spec[0]));
            }
        }
        let ops = spec.take(n as int);
        assert(ops[0] == '<');
        lemma_first_of(ops, Class::One('<'), 0);
    } else if exists|i: int|
        0 <= i < spec.len() - 1 && #[trigger] spec[i] == '!' && spec[i + 1] == '=' {
        let i = choose|i: int|
            0 <= i < spec.len() - 1 && #[trigger] spec[i] == '!' && spec[i + 1] == '=';
        reveal_strlit("!=");
        assert(spec.subrange(i, i + 2) =~= "!="@);
        lemma_found(spec, "!="@, 0, i as nat);
    } else if exists|i: int| 0 <= i < spec.len() && #[trigger] spec[i] == ',' {
        let i = choose|i: int| 0 <= i < spec.len() && #[trigger] spec[i] == ',';
        assert(Class::One(',').has(spec[i]));
    } else if exists|i: int| 0 <= i < spec.len() && #[trigger] spec[i] == '*' {
        let i = choose|i: int| 0 <= i < spec.len() && #[trigger] spec[i] == '*';
        assert(Class::One('*').has(spec[i]));
    }
}

// ---- the files that are named ----

/// Each way to name another requirements file names it.
pub proof fn a_file_that_is_named_is_followed(name: Seq<char>, way: Seq<char>)
    requires
        way == "-r "@ || way == "--requirement "@ || way == "--requirement="@,
        name.len() > 0,
        !is_space(name[0]) && !is_space(name.last()),
        lacks(name, '#'),
        inline(name),
    ensures
        targets_of(lines_of(line(way + name))) == seq![name],
{
    reveal_strlit("-r ");
    reveal_strlit("--requirement ");
    reveal_strlit("--requirement=");
    let text = way + name;
    let src = line(text);
    assert forall|i: int| 0 <= i < text.len() implies #[trigger] text[i] != '#' && text[i]
        != '\n' by {
        if i < way.len() {
            assert(text[i] == way[i]);
        } else {
            assert(text[i] == name[i - way.len()]);
        }
    }
    lemma_one_line(text);
    let all = lines_of(src);
    assert(all.drop_last() =~= seq![]);
    assert forall|i: int| 0 <= i < src.len() implies !Class::One('#').has(#[trigger] src[i]) by {
        if i < text.len() {
            assert(src[i] == text[i]);
        }
    }
    lemma_before(src, seq![], Class::One('#'));
    assert(src + Seq::<char>::empty() =~= src);
    assert(text[text.len() - 1] == name[name.len() - 1]);
    assert(text[0] == '-');
    lemma_trim_front(seq![], src, Class::Space);
    assert(seq![] + src =~= src);
    assert(is_space('\n'));
    lemma_trim_back(text, seq!['\n'], Class::Space);
    assert(trim_of(src, Class::Space) == text);
    assert(way.is_prefix_of(text));
    assert(text.skip(way.len() as int) =~= name);
    lemma_trimmed(name, Class::Space);
    if way == "-r "@ {
    } else if way == "--requirement "@ {
        assert(text[1] == '-');
        assert("-r "@[1] == 'r');
        assert(!"-r "@.is_prefix_of(text));
    } else {
        assert(text[1] == '-');
        assert("-r "@[1] == 'r');
        assert(!"-r "@.is_prefix_of(text));
        assert(text[13] == '=');
        assert("--requirement "@[13] == ' ');
        assert(!"--requirement "@.is_prefix_of(text));
    }
    assert(target_of(src) == Some(name));
    assert(targets_of(all.drop_last()) =~= seq![]);
    assert(targets_of(all) =~= seq![name]);
}

proof fn lemma_targets(a: Seq<Seq<char>>, b: Seq<Seq<char>>)
    ensures
        targets_of(a + b) == targets_of(a) + targets_of(b),
    decreases b.len(),
{
    if b.len() == 0 {
        assert(a + b =~= a);
        assert(targets_of(a) + targets_of(b) =~= targets_of(a));
    } else {
        lemma_targets(a, b.drop_last());
        assert((a + b).drop_last() =~= a + b.drop_last());
        assert(targets_of(a + b) =~= targets_of(a) + targets_of(b));
    }
}

/// A file names what its parts name, in order.
pub proof fn the_files_that_are_named_add_up(a: Seq<char>, b: Seq<char>)
    requires
        whole_lines(a),
    ensures
        targets_of(lines_of(a + b)) == targets_of(lines_of(a)) + targets_of(lines_of(b)),
{
    lemma_lines_concat(a, b);
    lemma_targets(lines_of(a), lines_of(b));
}

} // verus!
