//! A version span covers exactly the version, in every format.
use crate::extract::{parsed_of, Format};
use crate::json::Tree;
use crate::manifest::cargo::{
    and_one, cargo_lock_of, cargo_toml_of, comment_from, declared_of, dependency_of, lock_flush, lock_scan,
    quoted_after_from, quoted_of, toml_scan, uncommented, value_at, value_of, version_place,
    LockScan,
};
use crate::manifest::go::{
    all_replaced, and, applicable, code_of, directive, go_mod_of, before_version, require_body, require_of,
    scan_of, toolchain_version, ReplaceView,
};
use crate::manifest::npm::{
    dependencies_of, dependency_of as npm_dependency_of, declared_of as npm_declared_of,
    DeclaredView,
};
use crate::manifest::python::{
    after_extras, pip_scan, requirement_of, requirements_of, run_of, specifier_of, stripped,
};
use crate::manifest::{lemma_lowest_place, lowest_of, lowest_place, span_at};
use crate::model::{ExtractedView, Range};
use crate::span::range_of;
use crate::text::{
    before, clamp, find_of, first_of, is_space, leading, lemma_find, lemma_first_of,
    lemma_first_of_is, lemma_leading, lemma_leading_is, lemma_trailing, lemma_trailing_is,
    lemma_utf8_add, lemma_utf8_one, lemma_utf8_parts, lines_of, trailing, trim_end_of, trim_of,
    trim_start_of, utf8_len, word, word_end, words_from, words_of, Class,
};
use vstd::prelude::*;
use vstd::utf8::encode_utf8;

verus! {

/// Whether a text stands at a byte offset.
pub open spec fn stands_at(bytes: Seq<u8>, at: int, text: Seq<char>) -> bool {
    &&& 0 <= at
    &&& at + utf8_len(text) <= bytes.len()
    &&& bytes.subrange(at, at + utf8_len(text)) == encode_utf8(text)
}

/// Whether a range covers exactly a text.
pub open spec fn covers(bytes: Seq<u8>, r: Range, text: Seq<char>) -> bool {
    exists|at: int|
        #[trigger] stands_at(bytes, at, text) && r == range_of(bytes, at, at + utf8_len(text))
}

// ---- lines ----

spec fn joined(file: Seq<Seq<char>>) -> Seq<char>
    decreases file.len(),
{
    if file.len() == 0 {
        seq![]
    } else {
        joined(file.drop_last()) + file.last()
    }
}

proof fn lemma_joined_front(line: Seq<char>, rest: Seq<Seq<char>>)
    ensures
        joined(seq![line] + rest) == line + joined(rest),
    decreases rest.len(),
{
    let all = seq![line] + rest;
    if rest.len() == 0 {
        assert(all.drop_last() =~= seq![]);
        assert(joined(all.drop_last()) =~= seq![]);
        assert(joined(all) =~= line + joined(rest));
    } else {
        assert(all.drop_last() =~= seq![line] + rest.drop_last());
        lemma_joined_front(line, rest.drop_last());
        assert(all.last() == rest.last());
        assert(joined(all) =~= line + joined(rest));
    }
}

proof fn lemma_lines_joined(s: Seq<char>)
    ensures
        joined(lines_of(s)) == s,
    decreases s.len(),
{
    if s.len() == 0 {
        assert(joined(lines_of(s)) =~= s);
    } else {
        let k = Class::One('\n');
        lemma_first_of_is(s, k);
        match first_of(s, k) {
            Some(n) => {
                let line = s.take(n as int + 1);
                let rest = s.skip(n as int + 1);
                lemma_lines_joined(rest);
                lemma_joined_front(line, lines_of(rest));
                assert(line + rest =~= s);
            },
            None => {
                lemma_joined_front(s, seq![]);
                assert(seq![s] + Seq::<Seq<char>>::empty() =~= seq![s]);
                assert(joined(Seq::<Seq<char>>::empty()) =~= seq![]);
                assert(s + Seq::<char>::empty() =~= s);
            },
        }
    }
}

proof fn lemma_joined_split(file: Seq<Seq<char>>, i: int)
    requires
        0 <= i <= file.len(),
    ensures
        exists|rest: Seq<char>| joined(file) == #[trigger] (joined(file.take(i)) + rest),
    decreases file.len() - i,
{
    if i == file.len() {
        assert(file.take(i) =~= file);
        assert(joined(file) =~= joined(file.take(i)) + Seq::<char>::empty());
    } else {
        lemma_joined_split(file, i + 1);
        let rest = choose|rest: Seq<char>|
            joined(file) == #[trigger] (joined(file.take(i + 1)) + rest);
        assert(file.take(i + 1).drop_last() =~= file.take(i));
        let more = file[i] + rest;
        assert(joined(file) =~= joined(file.take(i)) + more);
    }
}

/// Where a part of a line stands in the file.
proof fn lemma_in_file(src: Seq<char>, i: int, a: int, b: int)
    requires
        0 <= i < lines_of(src).len(),
        0 <= a <= b <= lines_of(src)[i].len(),
    ensures
        ({
            let file = lines_of(src);
            let line = file[i];
            let at = utf8_len(joined(file.take(i))) + utf8_len(line.take(a));
            stands_at(encode_utf8(src), at as int, line.subrange(a, b))
        }),
{
    let file = lines_of(src);
    let line = file[i];
    lemma_lines_joined(src);
    lemma_joined_split(file, i + 1);
    let rest = choose|rest: Seq<char>|
        joined(file) == #[trigger] (joined(file.take(i + 1)) + rest);
    assert(file.take(i + 1).drop_last() =~= file.take(i));
    assert(file.take(i + 1).last() == line);
    let front = joined(file.take(i)) + line.take(a);
    let mid = line.subrange(a, b);
    let back = line.skip(b) + rest;
    assert(src =~= front + mid + back);
    lemma_utf8_add(front + mid, back);
    lemma_utf8_add(front, mid);
    lemma_utf8_add(joined(file.take(i)), line.take(a));
    let at = encode_utf8(front).len() as int;
    assert(encode_utf8(src).subrange(at, at + utf8_len(mid)) =~= encode_utf8(mid));
}

/// A span that stands in the file is not cut short.
proof fn lemma_covers(bytes: Seq<u8>, at: int, text: Seq<char>)
    requires
        bytes.len() <= usize::MAX,
        stands_at(bytes, at, text),
    ensures
        covers(bytes, span_at(bytes, at, utf8_len(text) as int), text),
{
    assert(stands_at(bytes, at, text) && span_at(bytes, at, utf8_len(text) as int) == range_of(
        bytes,
        at,
        at + utf8_len(text),
    ));
}

/// Part of a text that stands in the file stands in the file.
proof fn lemma_part(bytes: Seq<u8>, at: int, text: Seq<char>, a: int, b: int)
    requires
        stands_at(bytes, at, text),
        0 <= a <= b <= text.len(),
    ensures
        stands_at(bytes, at + utf8_len(text.take(a)), text.subrange(a, b)),
{
    lemma_utf8_parts(text, a, b);
    let mid = text.subrange(a, b);
    assert(text =~= text.take(a) + mid + text.skip(b));
    lemma_utf8_add(text.take(a) + mid, text.skip(b));
    lemma_utf8_add(text.take(a), mid);
    let p = at + utf8_len(text.take(a));
    let whole = bytes.subrange(at, at + utf8_len(text));
    assert(bytes.subrange(p, p + utf8_len(mid)) =~= whole.subrange(
        utf8_len(text.take(a)) as int,
        (utf8_len(text.take(a)) + utf8_len(mid)) as int,
    ));
    assert(whole.subrange(
        utf8_len(text.take(a)) as int,
        (utf8_len(text.take(a)) + utf8_len(mid)) as int,
    ) =~= encode_utf8(mid));
}

// ---- go.mod ----

proof fn lemma_words(s: Seq<char>, from: nat)
    requires
        from <= s.len(),
    ensures
        forall|i: int|
            0 <= i < words_from(s, from).len() ==> {
                let w = #[trigger] words_from(s, from)[i];
                w.0 < w.1 <= s.len()
            },
    decreases s.len() - from,
{
    if from < s.len() {
        if is_space(s[from as int]) {
            lemma_words(s, from + 1);
            assert(words_from(s, from) == words_from(s, from + 1));
        } else {
            crate::text::lemma_word_end(s, from);
            let end = word_end(s, from);
            lemma_words(s, end);
            let rest = words_from(s, end);
            let out = words_from(s, from);
            assert(out == seq![(from, end)] + rest);
            assert forall|i: int| 0 <= i < out.len() implies {
                let w = #[trigger] out[i];
                w.0 < w.1 <= s.len()
            } by {
                if i > 0 {
                    assert(out[i] == rest[i - 1]);
                }
            }
        }
    }
}

spec fn is_end_of(t: Seq<char>, s: Seq<char>) -> bool {
    t.len() <= s.len() && t == s.skip(s.len() - t.len())
}

proof fn lemma_end_of_end(t: Seq<char>, s: Seq<char>, r: Seq<char>)
    requires
        is_end_of(t, s),
        is_end_of(s, r),
    ensures
        is_end_of(t, r),
{
    assert(t =~= r.skip(r.len() - t.len()));
}

proof fn lemma_skip_is_end(s: Seq<char>, n: int)
    requires
        0 <= n <= s.len(),
    ensures
        is_end_of(s.skip(n), s),
{
    assert(s.skip(n) =~= s.skip(s.len() - s.skip(n).len()));
}

proof fn lemma_trim_is_end(s: Seq<char>, k: Class)
    ensures
        is_end_of(trim_start_of(s, k), s),
{
    lemma_leading_is(s, k);
    lemma_skip_is_end(s, leading(s, k) as int);
}

proof fn lemma_code_prefix(line: Seq<char>)
    ensures
        code_of(line).len() <= line.len(),
        code_of(line) == line.take(code_of(line).len() as int),
{
    lemma_find(line, "//"@, 0);
    lemma_trailing_is(line, Class::LineEnd);
    assert(code_of(line) =~= line.take(code_of(line).len() as int));
}

proof fn lemma_require(src: Seq<char>, path: Seq<char>, i: int)
    requires
        0 <= i < lines_of(src).len(),
        encode_utf8(src).len() <= usize::MAX,
    ensures
        ({
            let file = lines_of(src);
            let off = utf8_len(joined(file.take(i))) as int;
            let x = require_of(encode_utf8(src), path, code_of(file[i]), off);
            x is Some ==> covers(
                encode_utf8(src),
                x->Some_0.version_span->Some_0,
                x->Some_0.package.version,
            )
        }),
{
    let bytes = encode_utf8(src);
    let file = lines_of(src);
    let line = file[i];
    let off = utf8_len(joined(file.take(i))) as int;
    let code = code_of(line);
    lemma_code_prefix(line);
    if require_of(bytes, path, code, off) is Some {
        let body = require_body(code);
        lemma_trim_is_end(code, Class::Space);
        let trimmed = trim_start_of(code, Class::Space);
        reveal_strlit("require");
        if "require"@.is_prefix_of(trimmed) {
            lemma_skip_is_end(trimmed, 7);
            lemma_trim_is_end(trimmed.skip(7), Class::Space);
            lemma_end_of_end(body, trimmed.skip(7), trimmed);
            lemma_end_of_end(body, trimmed, code);
        }
        lemma_words(body, 0);
        let w = words_of(body)[1];
        let d = code.len() - body.len();
        let at = d + w.0;
        let version = word(body, 1)->Some_0;
        assert(version =~= code.subrange(at, d + w.1));
        let number = version.skip(1);
        assert(number =~= line.subrange(at + 1, d + w.1));
        assert(code.take(at) =~= line.take(at));
        assert(code[at] == 'v') by {
            assert(version[0] == code[at]);
        }
        assert(line[at] == 'v');
        crate::text::lemma_utf8_push(line.take(at), 'v');
        assert(line.take(at + 1) =~= line.take(at).push('v'));
        lemma_in_file(src, i, at + 1, d + w.1);
        lemma_covers(bytes, off + utf8_len(code.take(at)) + 1, number);
    }
}

/// A version and where it stands.
spec fn found_at(bytes: Seq<u8>, place: Option<(Seq<char>, int)>) -> bool {
    place matches Some((v, at)) ==> stands_at(bytes, at, v)
}

proof fn lemma_directive(src: Seq<char>, i: int, keyword: Seq<char>)
    requires
        0 <= i < lines_of(src).len(),
    ensures
        ({
            let file = lines_of(src);
            let off = utf8_len(joined(file.take(i))) as int;
            let code = code_of(file[i]);
            directive(code, trim_of(code, Class::Space), keyword) matches Some((value, column))
                ==> stands_at(encode_utf8(src), off + column, value)
        }),
{
    let file = lines_of(src);
    let line = file[i];
    let code = code_of(line);
    lemma_code_prefix(line);
    let trimmed = trim_of(code, Class::Space);
    if let Some((value, column)) = directive(code, trimmed, keyword) {
        lemma_find(code, value, 0);
        let c = find_of(code, value)->Some_0 as int;
        assert(code.subrange(c, c + value.len()) =~= line.subrange(c, c + value.len()));
        assert(code.take(c) =~= line.take(c));
        lemma_in_file(src, i, c, c + value.len());
    }
}

proof fn lemma_toolchain_version(value: Seq<char>)
    ensures
        ({
            let s = before_version(value);
            let v = toolchain_version(value);
            &&& s + v.len() <= value.len()
            &&& v == value.subrange(s, s + v.len())
            &&& s == 2 ==> value[0] == 'g' && value[1] == 'o'
        }),
{
    reveal_strlit("go");
    lemma_first_of_is(value, Class::One('-'));
    let front = before(value, Class::One('-'));
    let v = toolchain_version(value);
    if value.len() >= 2 && value[0] == 'g' && value[1] == 'o' {
        assert("go"@ =~= value.subrange(0, 2));
        assert("go"@.is_prefix_of(value));
        assert(front.len() >= 2) by {
            if let Some(n) = first_of(value, Class::One('-')) {
                assert(value[n as int] == '-');
            }
        }
        assert("go"@ =~= front.subrange(0, 2));
        assert("go"@.is_prefix_of(front));
        assert(v =~= value.subrange(2, 2 + v.len() as int));
    } else {
        assert(!"go"@.is_prefix_of(value)) by {
            if "go"@.is_prefix_of(value) {
                assert(value[0] == "go"@[0] && value[1] == "go"@[1]);
            }
        }
        assert(!"go"@.is_prefix_of(front)) by {
            if "go"@.is_prefix_of(front) {
                assert(front[0] == "go"@[0] && front[1] == "go"@[1]);
                assert(front[0] == value[0] && front[1] == value[1]);
            }
        }
        assert(v =~= value.subrange(0, v.len() as int));
    }
}

proof fn lemma_two_bytes(value: Seq<char>)
    requires
        value.len() >= 2,
        value[0] == 'g',
        value[1] == 'o',
    ensures
        utf8_len(value.take(2)) == 2,
{
    assert(value.take(2) =~= seq!['g', 'o']);
    assert(seq!['g', 'o'] =~= seq!['g'] + seq!['o']);
    lemma_utf8_add(seq!['g'], seq!['o']);
    lemma_utf8_one('g');
    lemma_utf8_one('o');
}

spec fn spans_hold(bytes: Seq<u8>, found: Seq<ExtractedView>) -> bool {
    forall|k: int|
        0 <= k < found.len() && (#[trigger] found[k]).version_span is Some ==> covers(
            bytes,
            found[k].version_span->Some_0,
            found[k].package.version,
        )
}

proof fn lemma_go_scan(src: Seq<char>, path: Seq<char>, i: int)
    requires
        0 <= i <= lines_of(src).len(),
        encode_utf8(src).len() <= usize::MAX,
    ensures
        ({
            let bytes = encode_utf8(src);
            let s = scan_of(bytes, path, lines_of(src).take(i));
            &&& s.offset == utf8_len(joined(lines_of(src).take(i)))
            &&& spans_hold(bytes, s.required)
            &&& found_at(bytes, s.go)
            &&& found_at(bytes, s.toolchain)
        }),
    decreases i,
{
    let bytes = encode_utf8(src);
    let file = lines_of(src);
    if i == 0 {
        assert(file.take(0) =~= seq![]);
        assert(joined(file.take(0)) =~= seq![]);
    } else {
        lemma_go_scan(src, path, i - 1);
        assert(file.take(i).drop_last() =~= file.take(i - 1));
        let line = file[i - 1];
        assert(file.take(i).last() == line);
        let s = scan_of(bytes, path, file.take(i - 1));
        let t = scan_of(bytes, path, file.take(i));
        lemma_utf8_add(joined(file.take(i - 1)), line);
        let code = code_of(line);
        let off = s.offset as int;
        lemma_require(src, path, i - 1);
        let x = require_of(bytes, path, code, off);
        assert(t.required == s.required || t.required == and(s.required, x));
        assert forall|k: int|
            0 <= k < t.required.len() && (#[trigger] t.required[k]).version_span is Some implies
            covers(bytes, t.required[k].version_span->Some_0, t.required[k].package.version) by {
            if k < s.required.len() {
                assert(t.required[k] == s.required[k]);
            }
        }
        if s.block is None {
            let trimmed = trim_of(code, Class::Space);
            lemma_directive(src, i - 1, "go "@);
            lemma_directive(src, i - 1, "toolchain "@);
            if let Some((value, column)) = directive(code, trimmed, "toolchain "@) {
                lemma_toolchain_version(value);
                let n = before_version(value);
                let v = toolchain_version(value);
                lemma_part(bytes, off + column, value, n, n + v.len());
                if n == 2 {
                    lemma_two_bytes(value);
                } else {
                    assert(value.take(0) =~= seq![]);
                }
            }
        }
    }
}

proof fn lemma_replaced_spans(
    bytes: Seq<u8>,
    replaces: Seq<ReplaceView>,
    found: Seq<ExtractedView>,
    path: Seq<char>,
)
    requires
        spans_hold(bytes, found),
    ensures
        spans_hold(bytes, all_replaced(replaces, found, path)),
    decreases found.len(),
{
    if found.len() > 0 {
        let front = found.drop_last();
        assert forall|k: int|
            0 <= k < front.len() && (#[trigger] front[k]).version_span is Some implies covers(
            bytes,
            front[k].version_span->Some_0,
            front[k].package.version,
        ) by {
            assert(front[k] == found[k]);
        }
        lemma_replaced_spans(bytes, replaces, front, path);
        let kept = all_replaced(replaces, front, path);
        let out = all_replaced(replaces, found, path);
        assert(found[found.len() - 1] == found.last());
        assert forall|k: int|
            0 <= k < out.len() && (#[trigger] out[k]).version_span is Some implies covers(
            bytes,
            out[k].version_span->Some_0,
            out[k].package.version,
        ) by {
            if k < kept.len() {
                assert(out[k] == kept[k]);
            }
        }
    }
}

proof fn lemma_go_mod(src: Seq<char>, path: Seq<char>)
    requires
        encode_utf8(src).len() <= usize::MAX,
    ensures
        spans_hold(encode_utf8(src), go_mod_of(src, path)),
{
    let bytes = encode_utf8(src);
    let file = lines_of(src);
    lemma_go_scan(src, path, file.len() as int);
    assert(file.take(file.len() as int) =~= file);
    let s = scan_of(bytes, path, file);
    lemma_replaced_spans(bytes, s.replaces, s.required, path);
    let modules = all_replaced(s.replaces, s.required, path);
    let out = go_mod_of(src, path);
    if let Some((v, at)) = s.toolchain {
        lemma_covers(bytes, at, v);
    } else if let Some((v, at)) = s.go {
        lemma_covers(bytes, at, v);
    }
    assert forall|k: int| 0 <= k < out.len() && (#[trigger] out[k]).version_span is Some implies
        covers(bytes, out[k].version_span->Some_0, out[k].package.version) by {
        if k < modules.len() {
            assert(out[k] == modules[k]);
        }
    }
}

// ---- requirements.txt ----

proof fn lemma_before_prefix(s: Seq<char>, k: Class)
    ensures
        before(s, k).len() <= s.len(),
        before(s, k) == s.take(before(s, k).len() as int),
{
    lemma_first_of_is(s, k);
    assert(before(s, k) =~= s.take(before(s, k).len() as int));
}

proof fn lemma_run(s: Seq<char>, k: Class)
    ensures
        run_of(s, k) <= s.len(),
{
    lemma_first_of_is(s, k);
}

proof fn lemma_extras_end(rest: Seq<char>)
    ensures
        after_extras(rest) matches Some(r) ==> is_end_of(r, rest),
{
    if rest.len() > 0 && rest[0] == '[' {
        lemma_first_of_is(rest.skip(1), Class::One(']'));
        if let Some(n) = first_of(rest.skip(1), Class::One(']')) {
            lemma_skip_is_end(rest, n as int + 2);
            lemma_trim_is_end(rest.skip(n as int + 2), Class::Space);
            lemma_end_of_end(after_extras(rest)->Some_0, rest.skip(n as int + 2), rest);
        }
    } else {
        assert(rest =~= rest.skip(0));
    }
}

proof fn lemma_specifier_end(rest: Seq<char>)
    ensures
        specifier_of(rest) matches Some((_, tail)) ==> is_end_of(tail, rest),
{
    lemma_first_of_is(rest, Class::NotComparator);
    if let Some((c, tail)) = specifier_of(rest) {
        let n = first_of(rest, Class::NotComparator)->Some_0 as int;
        lemma_skip_is_end(rest, n);
        lemma_trim_is_end(rest.skip(n), Class::Space);
        lemma_end_of_end(tail, rest.skip(n), rest);
    }
}

proof fn lemma_requirement(src: Seq<char>, path: Seq<char>, i: int)
    requires
        0 <= i < lines_of(src).len(),
        encode_utf8(src).len() <= usize::MAX,
    ensures
        ({
            let file = lines_of(src);
            let off = utf8_len(joined(file.take(i))) as int;
            let text = trim_end_of(file[i], Class::LineEnd);
            requirement_of(encode_utf8(src), path, text, off, true) matches Some(x) ==> covers(
                encode_utf8(src),
                x.version_span->Some_0,
                x.package.version,
            )
        }),
{
    let bytes = encode_utf8(src);
    let file = lines_of(src);
    let raw = file[i];
    let off = utf8_len(joined(file.take(i))) as int;
    let line = trim_end_of(raw, Class::LineEnd);
    lemma_trailing_is(raw, Class::LineEnd);
    if let Some(x) = requirement_of(bytes, path, line, off, true) {
        let cut = before(line, Class::One('#'));
        lemma_before_prefix(line, Class::One('#'));
        let kept = trim_end_of(cut, Class::Space);
        lemma_trailing_is(cut, Class::Space);
        let lead = leading(kept, Class::Space) as int;
        lemma_leading_is(kept, Class::Space);
        let trimmed = stripped(line);
        let body = before(trimmed, Class::One(';'));
        lemma_before_prefix(trimmed, Class::One(';'));
        let end = run_of(body, Class::NotName) as int;
        lemma_run(body, Class::NotName);
        let after = body.skip(end);
        lemma_skip_is_end(body, end);
        lemma_trim_is_end(after, Class::Space);
        let first = trim_start_of(after, Class::Space);
        lemma_extras_end(first);
        let rest = after_extras(first)->Some_0;
        lemma_specifier_end(rest);
        let tail = specifier_of(rest)->Some_0.1;
        lemma_end_of_end(tail, rest, first);
        lemma_end_of_end(tail, first, after);
        lemma_end_of_end(tail, after, body);
        let n = run_of(tail, Class::NotVersion) as int;
        lemma_run(tail, Class::NotVersion);
        let version = tail.take(n);
        let at = lead + body.len() - tail.len();
        assert(version =~= raw.subrange(at, at + n)) by {
            assert forall|k: int| 0 <= k < n implies version[k] == raw.subrange(at, at + n)[k] by {
                assert(version[k] == body[body.len() - tail.len() + k]);
                assert(body[body.len() - tail.len() + k] == trimmed[body.len() - tail.len() + k]);
                assert(trimmed[body.len() - tail.len() + k] == kept[at + k]);
            }
        }
        assert(line.take(at) =~= raw.take(at));
        lemma_in_file(src, i, at, at + n);
        lemma_covers(bytes, off + utf8_len(line.take(at)), version);
    }
}

proof fn lemma_pip_scan(src: Seq<char>, path: Seq<char>, i: int)
    requires
        0 <= i <= lines_of(src).len(),
        encode_utf8(src).len() <= usize::MAX,
    ensures
        ({
            let bytes = encode_utf8(src);
            let s = pip_scan(bytes, path, lines_of(src).take(i));
            &&& s.offset == utf8_len(joined(lines_of(src).take(i)))
            &&& s.pending.len() > 0 ==> s.pending_start < s.offset
            &&& spans_hold(bytes, s.found)
        }),
    decreases i,
{
    let bytes = encode_utf8(src);
    let file = lines_of(src);
    if i == 0 {
        assert(file.take(0) =~= seq![]);
        assert(joined(file.take(0)) =~= seq![]);
    } else {
        lemma_pip_scan(src, path, i - 1);
        assert(file.take(i).drop_last() =~= file.take(i - 1));
        let line = file[i - 1];
        assert(file.take(i).last() == line);
        let s = pip_scan(bytes, path, file.take(i - 1));
        let t = pip_scan(bytes, path, file.take(i));
        lemma_utf8_add(joined(file.take(i - 1)), line);
        let text = trim_end_of(line, Class::LineEnd);
        lemma_trailing_is(line, Class::LineEnd);
        lemma_requirement(src, path, i - 1);
        if s.pending.len() == 0 {
            assert(s.pending + text =~= text);
        }
        if text.len() > 0 {
            crate::text::lemma_utf8_push(line.drop_last(), line.last());
            assert(line.drop_last().push(line.last()) =~= line);
        }
        assert forall|k: int|
            0 <= k < t.found.len() && (#[trigger] t.found[k]).version_span is Some implies covers(
            bytes,
            t.found[k].version_span->Some_0,
            t.found[k].package.version,
        ) by {
            if k < s.found.len() {
                assert(t.found[k] == s.found[k]);
            }
        }
    }
}

// ---- Cargo.toml ----

proof fn lemma_comment(line: Seq<char>, i: nat, quote: Option<char>)
    requires
        i <= line.len(),
    ensures
        comment_from(line, i, quote) matches Some(n) ==> n < line.len(),
    decreases line.len() - i,
{
    if i < line.len() {
        lemma_comment(line, i + 1, None);
        lemma_comment(line, i + 1, quote);
        lemma_comment(line, i + 1, Some(line[i as int]));
    }
}

proof fn lemma_uncommented_prefix(line: Seq<char>)
    ensures
        uncommented(line).len() <= line.len(),
        uncommented(line) == line.take(uncommented(line).len() as int),
{
    lemma_comment(line, 0, None);
    lemma_trailing_is(line, Class::LineEnd);
    assert(uncommented(line) =~= line.take(uncommented(line).len() as int));
}

proof fn lemma_quoted(s: Seq<char>)
    ensures
        quoted_of(s) matches Some((a, b)) ==> a <= b <= s.len(),
{
    lemma_first_of_is(s, Class::Quote);
    if let Some(open) = first_of(s, Class::Quote) {
        lemma_first_of_is(s.skip(open as int + 1), Class::One(s[open as int]));
    }
}

proof fn lemma_quoted_after(s: Seq<char>, key: Seq<char>, from: nat)
    ensures
        quoted_after_from(s, key, from) matches Some((a, b)) ==> a <= b <= s.len(),
    decreases s.len() - from,
{
    lemma_find(s, key, from);
    if let Some(i) = crate::text::find_from(s, key, from) {
        if from <= i && i + key.len() <= s.len() && i < s.len() {
            let tail = s.skip((i + key.len()) as int);
            let rest = trim_start_of(tail, Class::Space);
            lemma_leading_is(tail, Class::Space);
            if rest.len() > 0 && rest[0] == '=' {
                lemma_quoted(rest.skip(1));
            } else {
                lemma_quoted_after(s, key, i + 1);
            }
        }
    }
}

proof fn lemma_lowest(constraint: Seq<char>)
    ensures
        lowest_of(constraint) matches Some(l) ==> exists|at: int|
            0 <= at && at + l.version.len() <= constraint.len() && l.version
                == #[trigger] constraint.subrange(at, at + l.version.len()) && l.start == utf8_len(
                constraint.take(at),
            ) && l.end == l.start + utf8_len(l.version),
{
    if let Some(l) = lowest_of(constraint) {
        let lead = leading(constraint, Class::Space) as int;
        lemma_leading_is(constraint, Class::Space);
        let tail = trim_start_of(constraint, Class::Space);
        lemma_trailing_is(tail, Class::Space);
        let body = trim_of(constraint, Class::Space);
        lemma_lowest_place(body, 0);
        let start = lowest_place(body, 0)->Some_0 as int;
        lemma_before_prefix(body.skip(start), Class::NotSpelling);
        let at = lead + start;
        assert(l.version =~= constraint.subrange(at, at + l.version.len()));
        assert(constraint.take(at) =~= constraint.take(lead) + body.take(start));
        lemma_utf8_add(constraint.take(lead), body.take(start));
    }
}

/// The version in a constraint that stands between two places of a line.
proof fn lemma_constraint(src: Seq<char>, i: int, v0: int, v1: int)
    requires
        0 <= i < lines_of(src).len(),
        0 <= v0 <= v1 <= uncommented(lines_of(src)[i]).len(),
        lowest_of(uncommented(lines_of(src)[i]).subrange(v0, v1)) is Some,
        encode_utf8(src).len() <= usize::MAX,
    ensures
        ({
            let file = lines_of(src);
            let off = utf8_len(joined(file.take(i))) as int;
            let line = uncommented(file[i]);
            let l = lowest_of(line.subrange(v0, v1))->Some_0;
            let at = off + utf8_len(line.take(v0));
            covers(
                encode_utf8(src),
                range_of(encode_utf8(src), clamp(at + l.start), clamp(at + l.end)),
                l.version,
            )
        }),
{
    let bytes = encode_utf8(src);
    let raw = lines_of(src)[i];
    let off = utf8_len(joined(lines_of(src).take(i))) as int;
    let line = uncommented(raw);
    lemma_uncommented_prefix(raw);
    let version = line.subrange(v0, v1);
    lemma_lowest(version);
    let l = lowest_of(version)->Some_0;
    let at = choose|at: int|
        0 <= at && at + l.version.len() <= version.len() && l.version == #[trigger] version.subrange(
            at,
            at + l.version.len(),
        ) && l.start == utf8_len(version.take(at)) && l.end == l.start + utf8_len(l.version);
    let n = l.version.len() as int;
    assert(version.subrange(at, at + n) =~= raw.subrange(v0 + at, v0 + at + n));
    lemma_in_file(src, i, v0 + at, v0 + at + n);
    assert(raw.take(v0 + at) =~= line.take(v0) + version.take(at));
    lemma_utf8_add(line.take(v0), version.take(at));
    lemma_covers(bytes, off + utf8_len(line.take(v0)) + l.start, l.version);
}

proof fn lemma_declared(src: Seq<char>, path: Seq<char>, i: int, section: int)
    requires
        0 <= i < lines_of(src).len(),
        encode_utf8(src).len() <= usize::MAX,
    ensures
        ({
            let file = lines_of(src);
            let off = utf8_len(joined(file.take(i))) as int;
            let line = uncommented(file[i]);
            declared_of(encode_utf8(src), path, line, off, section) matches Some(x) ==> (
            x.version_span is Some ==> covers(
                encode_utf8(src),
                x.version_span->Some_0,
                x.package.version,
            ))
        }),
{
    let bytes = encode_utf8(src);
    let file = lines_of(src);
    let raw = file[i];
    let off = utf8_len(joined(file.take(i))) as int;
    let line = uncommented(raw);
    lemma_uncommented_prefix(raw);
    if let Some(x) = declared_of(bytes, path, line, off, section) {
        if x.version_span is Some {
            let d = dependency_of(line)->Some_0;
            lemma_first_of_is(line, Class::One('='));
            let eq = first_of(line, Class::One('='))->Some_0 as int;
            let value = line.skip(eq + 1);
            lemma_quoted(value);
            lemma_quoted_after(value, "version"@, 0);
            let (a, b) = version_place(value)->Some_0;
            let (v0, v1) = (d.version.0 as int, d.version.1 as int);
            assert(v0 == eq + 1 + a && v1 == eq + 1 + b);
            lemma_constraint(src, i, v0, v1);
        }
    }
}

proof fn lemma_one_more(
    bytes: Seq<u8>,
    list: Seq<ExtractedView>,
    more: Option<ExtractedView>,
)
    requires
        spans_hold(bytes, list),
        more matches Some(x) ==> (x.version_span is Some ==> covers(
            bytes,
            x.version_span->Some_0,
            x.package.version,
        )),
    ensures
        spans_hold(bytes, and_one(list, more)),
{
    let out = and_one(list, more);
    assert forall|k: int|
        0 <= k < out.len() && (#[trigger] out[k]).version_span is Some implies covers(
        bytes,
        out[k].version_span->Some_0,
        out[k].package.version,
    ) by {
        if k < list.len() {
            assert(out[k] == list[k]);
        }
    }
}

proof fn lemma_toml_scan(src: Seq<char>, path: Seq<char>, i: int)
    requires
        0 <= i <= lines_of(src).len(),
        encode_utf8(src).len() <= usize::MAX,
    ensures
        ({
            let bytes = encode_utf8(src);
            let s = toml_scan(bytes, path, lines_of(src).take(i));
            &&& s.offset == utf8_len(joined(lines_of(src).take(i)))
            &&& spans_hold(bytes, s.shipped)
            &&& spans_hold(bytes, s.build)
            &&& spans_hold(bytes, s.dev)
        }),
    decreases i,
{
    let bytes = encode_utf8(src);
    let file = lines_of(src);
    if i == 0 {
        assert(file.take(0) =~= seq![]);
        assert(joined(file.take(0)) =~= seq![]);
    } else {
        lemma_toml_scan(src, path, i - 1);
        assert(file.take(i).drop_last() =~= file.take(i - 1));
        let line = file[i - 1];
        assert(file.take(i).last() == line);
        let s = toml_scan(bytes, path, file.take(i - 1));
        lemma_utf8_add(joined(file.take(i - 1)), line);
        if s.section is Some {
            let section = s.section->Some_0;
            lemma_declared(src, path, i - 1, section);
            let x = declared_of(bytes, path, uncommented(line), s.offset as int, section);
            lemma_one_more(bytes, s.shipped, x);
            lemma_one_more(bytes, s.build, x);
            lemma_one_more(bytes, s.dev, x);
        }
    }
}

// ---- package.json ----

proof fn lemma_dependencies(bytes: Seq<u8>, path: Seq<char>, ds: Seq<DeclaredView>)
    ensures
        spans_hold(bytes, dependencies_of(bytes, path, ds)),
    decreases ds.len(),
{
    if ds.len() > 0 {
        lemma_dependencies(bytes, path, ds.drop_last());
        let before = dependencies_of(bytes, path, ds.drop_last());
        let out = dependencies_of(bytes, path, ds);
        let d = ds.last();
        if let Some(x) = npm_dependency_of(bytes, path, d) {
            if x.version_span is Some {
                let l = lowest_of(d.spec)->Some_0;
                let at = clamp(d.spec_at + clamp(l.start as int));
                let to = clamp(d.spec_at + clamp(l.end as int));
                lemma_span_in(bytes, at, to, l.version);
            }
        }
        assert forall|k: int|
            0 <= k < out.len() && (#[trigger] out[k]).version_span is Some implies covers(
            bytes,
            out[k].version_span->Some_0,
            out[k].package.version,
        ) by {
            if k < before.len() {
                assert(out[k] == before[k]);
            }
        }
    }
}

proof fn lemma_span_in(bytes: Seq<u8>, at: int, to: int, text: Seq<char>)
    requires
        0 <= at <= to <= bytes.len(),
        bytes.subrange(at, to) == encode_utf8(text),
    ensures
        covers(bytes, range_of(bytes, at, to), text),
{
    assert(bytes.subrange(at, to).len() == to - at);
    assert(to == at + utf8_len(text));
    assert(stands_at(bytes, at, text));
}

// ---- bumping a constraint ----

/// Whether a text can stand for a version in a constraint.
pub open spec fn is_spelled(version: Seq<char>) -> bool {
    &&& version.len() > 0
    &&& Class::Digit.has(version[0])
    &&& forall|i: int| 0 <= i < version.len() ==> !Class::NotSpelling.has(#[trigger] version[i])
}

/// A constraint with its version, which stands after `at` characters,
/// replaced.
pub open spec fn bumped(
    constraint: Seq<char>,
    at: int,
    version: Seq<char>,
    target: Seq<char>,
) -> Seq<char> {
    constraint.take(at) + target + constraint.skip(at + version.len())
}

proof fn lemma_trimmed(s: Seq<char>, a: int, b: int)
    requires
        0 <= a < b <= s.len(),
        forall|i: int| 0 <= i < a ==> Class::Space.has(#[trigger] s[i]),
        forall|i: int| b <= i < s.len() ==> Class::Space.has(#[trigger] s[i]),
        !Class::Space.has(s[a]),
        !Class::Space.has(s[b - 1]),
    ensures
        leading(s, Class::Space) == a,
        trim_of(s, Class::Space) == s.subrange(a, b),
{
    let k = Class::Space;
    lemma_leading(s, k, a as nat);
    let t = trim_start_of(s, k);
    assert(t =~= s.skip(a));
    lemma_trailing(t, k, (s.len() - b) as nat);
    assert(trim_of(s, k) =~= s.subrange(a, b));
}

/// A constraint that is the same up to its lowest version has its lowest
/// version in the same place.
proof fn lemma_same_place(a: Seq<char>, b: Seq<char>, start: nat, from: nat)
    requires
        lowest_place(a, from) == Some(start),
        start < b.len(),
        a.take(start as int) == b.take(start as int),
        Class::Digit.has(b[start as int]),
    ensures
        lowest_place(b, from) == Some(start),
    decreases a.len() - from,
{
    lemma_lowest_place(a, from);
    let (x, y) = (a.skip(from as int), b.skip(from as int));
    lemma_first_of_is(x, Class::Digit);
    let n = first_of(x, Class::Digit)->Some_0;
    lemma_first_of_is(x.skip(n as int), Class::NotSpelling);
    let end = from + n + before(x.skip(n as int), Class::NotSpelling).len();
    let next = if end < a.len() && a[end as int] == ',' {
        end + 1
    } else {
        end
    };
    assert(x[n as int] == a[(from + n) as int]);
    if first_of(x.take(n as int), Class::One('<')) is Some {
        lemma_lowest_place(a, next);
    }
    assert(from + n <= start);
    let front = a.take(start as int);
    assert forall|i: int| 0 <= i < start implies #[trigger] a[i] == b[i] by {
        assert(front[i] == a[i]);
        assert(front[i] == b[i]);
    }
    assert forall|i: int| 0 <= i < n implies !Class::Digit.has(#[trigger] y[i]) by {
        assert(y[i] == b[from + i]);
        assert(x[i] == a[from + i]);
    }
    assert(y[n as int] == b[(from + n) as int]);
    lemma_first_of(y, Class::Digit, n);
    assert(y.take(n as int) =~= x.take(n as int));
    if first_of(x.take(n as int), Class::One('<')) is Some {
        let (u, v) = (x.skip(n as int), y.skip(n as int));
        assert(end < start) by {
            if end == start {
                assert(u[end - from - n] == a[end as int]);
            }
        }
        let m = (end - from - n) as nat;
        assert(u[m as int] == a[end as int] && v[m as int] == b[end as int]);
        assert forall|i: int| 0 <= i < m implies !Class::NotSpelling.has(#[trigger] v[i]) by {
            assert(v[i] == b[from + n + i]);
            assert(u[i] == a[from + n + i]);
        }
        lemma_first_of(v, Class::NotSpelling, m);
        lemma_same_place(a, b, start, next);
    }
}

/// Replacing the version in a constraint, and nothing else, gives a constraint
/// whose lowest version is the new one, in the same place: operators and upper
/// bounds survive.
#[verifier::rlimit(50)]
#[verifier::spinoff_prover]
pub proof fn a_bumped_constraint_admits_the_new_version(
    constraint: Seq<char>,
    target: Seq<char>,
) -> (at: int)
    requires
        lowest_of(constraint) is Some,
        is_spelled(target),
    ensures
        ({
            let l = lowest_of(constraint)->Some_0;
            let m = lowest_of(bumped(constraint, at, l.version, target));
            &&& 0 <= at
            &&& at + l.version.len() <= constraint.len()
            &&& constraint.subrange(at, at + l.version.len()) == l.version
            &&& l.start == utf8_len(constraint.take(at))
            &&& m is Some
            &&& m->Some_0.version == target
            &&& m->Some_0.start == l.start
        }),
{
    let k = Class::Space;
    let l = lowest_of(constraint)->Some_0;
    let lead = leading(constraint, k) as int;
    lemma_leading_is(constraint, k);
    let tail = trim_start_of(constraint, k);
    lemma_trailing_is(tail, k);
    let body = trim_of(constraint, k);
    lemma_first_of_is(body, Class::One(':'));
    lemma_first_of_is(body, Class::One('/'));
    lemma_lowest_place(body, 0);
    let start = lowest_place(body, 0)->Some_0 as int;
    lemma_first_of_is(body.skip(start), Class::NotSpelling);
    lemma_before_prefix(body.skip(start), Class::NotSpelling);
    let n = l.version.len() as int;
    let at = lead + start;
    let end = lead + body.len();
    assert(body =~= constraint.subrange(lead, end));
    assert(l.version =~= constraint.subrange(at, at + n));
    assert(constraint.take(at) =~= constraint.take(lead) + body.take(start));
    lemma_utf8_add(constraint.take(lead), body.take(start));

    let m = target.len() as int;
    let new = bumped(constraint, at, l.version, target);
    let new_end = end - n + m;
    let new_body = body.take(start) + target + body.skip(start + n);
    assert forall|i: int| 0 <= i < lead implies k.has(#[trigger] new[i]) by {
        assert(new[i] == constraint[i]);
    }
    assert forall|i: int| new_end <= i < new.len() implies k.has(#[trigger] new[i]) by {
        assert(new[i] == constraint[i - m + n]);
        assert(constraint[i - m + n] == tail[i - m + n - lead]);
    }
    assert(!k.has(new[lead])) by {
        if start == 0 {
            assert(new[lead] == target[0]);
        } else {
            assert(new[lead] == constraint[lead]);
        }
    }
    assert(!k.has(new[new_end - 1])) by {
        if start + n == body.len() {
            assert(new[new_end - 1] == target[m - 1]);
            assert(!Class::NotSpelling.has(target[m - 1]));
        } else {
            assert(new[new_end - 1] == constraint[end - 1]);
            assert(constraint[end - 1] == tail[tail.len() - trailing(tail, k) - 1]);
        }
    }
    lemma_trimmed(new, lead, new_end);
    assert(new.subrange(lead, new_end) =~= new_body);

    assert forall|i: int| 0 <= i < new_body.len() implies (#[trigger] new_body[i]) != ':'
        && new_body[i] != '/' by {
        if i < start {
            assert(new_body[i] == body[i]);
        } else if i < start + m {
            assert(new_body[i] == target[i - start]);
            assert(!Class::NotSpelling.has(target[i - start]));
        } else {
            assert(new_body[i] == body[i - m + n]);
        }
    }
    lemma_first_of_is(new_body, Class::One(':'));
    lemma_first_of_is(new_body, Class::One('/'));
    assert(new_body[start] == target[0]);
    assert(new_body.take(start) =~= body.take(start));
    lemma_same_place(body, new_body, start as nat, 0);
    let rest = new_body.skip(start);
    assert(rest =~= target + body.skip(start + n));
    if start + n < body.len() {
        assert(rest[m] == body[start + n]);
        assert(body[start + n] == body.skip(start)[n]);
        assert forall|i: int| 0 <= i < m implies !Class::NotSpelling.has(#[trigger] rest[i]) by {
            assert(rest[i] == target[i]);
        }
        lemma_first_of(rest, Class::NotSpelling, m as nat);
    } else {
        assert(rest =~= target);
        lemma_first_of_is(rest, Class::NotSpelling);
    }
    assert(before(rest, Class::NotSpelling) =~= target);
    assert(new.take(lead) =~= constraint.take(lead));
    at
}

// ---- the law ----

/// A version span covers exactly the version that was reported, so that
/// replacing it leaves everything around it untouched: quotes, operators, the
/// `v` of a `go.mod`.
pub proof fn a_version_span_covers_the_version(
    format: Format,
    src: Seq<char>,
    path: Seq<char>,
    i: int,
)
    requires
        encode_utf8(src).len() <= usize::MAX,
        0 <= i < parsed_of(format, src, path).len(),
        parsed_of(format, src, path)[i].version_span is Some,
    ensures
        covers(
            encode_utf8(src),
            parsed_of(format, src, path)[i].version_span->Some_0,
            parsed_of(format, src, path)[i].package.version,
        ),
{
    let bytes = encode_utf8(src);
    let file = lines_of(src);
    let found = parsed_of(format, src, path);
    match format {
        Format::GoMod => {
            lemma_go_mod(src, path);
        },
        Format::Requirements => {
            lemma_pip_scan(src, path, file.len() as int);
            assert(file.take(file.len() as int) =~= file);
        },
        Format::CargoToml => {
            lemma_toml_scan(src, path, file.len() as int);
            assert(file.take(file.len() as int) =~= file);
            let s = toml_scan(bytes, path, file);
            let all = s.shipped + s.build + s.dev;
            crate::manifest::first_of_each_lists_each_once(all);
            assert(all.contains(found[i]));
            let k = choose|k: int| 0 <= k < all.len() && all[k] == found[i];
            if k < s.shipped.len() {
                assert(all[k] == s.shipped[k]);
            } else if k < s.shipped.len() + s.build.len() {
                assert(all[k] == s.build[k - s.shipped.len()]);
            } else {
                assert(all[k] == s.dev[k - s.shipped.len() - s.build.len()]);
            }
        },
        Format::PackageJson => {
            if let Some(Tree::Object(es)) = crate::json::json_of(src) {
                let ds = npm_declared_of(es, 4);
                lemma_dependencies(bytes, path, ds);
                let all = dependencies_of(bytes, path, ds);
                crate::manifest::first_of_each_lists_each_once(all);
                assert(all.contains(found[i]));
                let k = choose|k: int| 0 <= k < all.len() && all[k] == found[i];
                assert(all[k] == found[i]);
            }
        },
        Format::PackageLock => {
            crate::manifest::laws::lockfiles_offer_no_version_span(format, src, path, i);
        },
        Format::CargoLock => {
            crate::manifest::laws::lockfiles_offer_no_version_span(format, src, path, i);
        },
    }
}

// ---- Cargo.lock ----

spec fn names_hold(bytes: Seq<u8>, found: Seq<ExtractedView>) -> bool {
    forall|k: int|
        0 <= k < found.len() ==> covers(
            bytes,
            (#[trigger] found[k]).evidence.range,
            found[k].package.key.name,
        )
}

spec fn name_stands(bytes: Seq<u8>, name: Option<(Seq<char>, int, int)>) -> bool {
    name matches Some((n, a, b)) ==> stands_at(bytes, a, n) && b == a + utf8_len(n)
}

proof fn lemma_value(trimmed: Seq<char>, key: Seq<char>)
    ensures
        value_of(trimmed, key) matches Some(v) ==> is_end_of(v, trimmed),
{
    if let Some(v) = value_of(trimmed, key) {
        let n = key.len() as int;
        lemma_skip_is_end(trimmed, n);
        let rest = trim_start_of(trimmed.skip(n), Class::Space);
        lemma_trim_is_end(trimmed.skip(n), Class::Space);
        lemma_skip_is_end(rest, 1);
        lemma_end_of_end(v, rest, trimmed.skip(n));
        lemma_end_of_end(v, trimmed.skip(n), trimmed);
    }
}

proof fn lemma_lock_name(src: Seq<char>, i: int)
    requires
        0 <= i < lines_of(src).len(),
    ensures
        ({
            let file = lines_of(src);
            let off = utf8_len(joined(file.take(i))) as int;
            let line = uncommented(file[i]);
            value_of(trim_of(line, Class::Space), "name"@) matches Some(v) ==> (quoted_of(
                v,
            ) matches Some((a, b)) ==> {
                let at = off + utf8_len(line.take(value_at(line, v)));
                name_stands(
                    encode_utf8(src),
                    Some(
                        (
                            v.subrange(a as int, b as int),
                            at + utf8_len(v.take(a as int)),
                            at + utf8_len(v.take(b as int)),
                        ),
                    ),
                )
            })
        }),
{
    let file = lines_of(src);
    let raw = file[i];
    let line = uncommented(raw);
    let k = Class::Space;
    lemma_uncommented_prefix(raw);
    let trimmed = trim_of(line, k);
    lemma_leading_is(line, k);
    let tail = trim_start_of(line, k);
    lemma_trailing_is(tail, k);
    lemma_value(trimmed, "name"@);
    if let Some(v) = value_of(trimmed, "name"@) {
        lemma_quoted(v);
        if let Some((a, b)) = quoted_of(v) {
            let (a, b) = (a as int, b as int);
            let p = value_at(line, v);
            let lead = leading(line, k) as int;
            assert forall|j: int| 0 <= j < v.len() implies v[j] == #[trigger] raw[p + j] by {
                assert(v[j] == trimmed[trimmed.len() - v.len() + j]);
                assert(trimmed[trimmed.len() - v.len() + j] == tail[trimmed.len() - v.len() + j]);
                assert(tail[trimmed.len() - v.len() + j] == line[p + j]);
            }
            assert(v.subrange(a, b) =~= raw.subrange(p + a, p + b));
            lemma_in_file(src, i, p + a, p + b);
            assert(raw.take(p + a) =~= line.take(p) + v.take(a));
            lemma_utf8_add(line.take(p), v.take(a));
            assert(v.take(b) =~= v.take(a) + v.subrange(a, b));
            lemma_utf8_add(v.take(a), v.subrange(a, b));
        }
    }
}

proof fn lemma_flushed(bytes: Seq<u8>, path: Seq<char>, s: LockScan)
    requires
        bytes.len() <= usize::MAX,
        names_hold(bytes, s.found),
        name_stands(bytes, s.name),
    ensures
        names_hold(bytes, lock_flush(bytes, path, s).found),
{
    let out = lock_flush(bytes, path, s).found;
    if let Some((n, a, b)) = s.name {
        assert(clamp(a) == a && clamp(b) == b);
        assert(stands_at(bytes, a, n));
        assert(covers(bytes, range_of(bytes, a, b), n));
    }
    assert forall|k: int| 0 <= k < out.len() implies covers(
        bytes,
        (#[trigger] out[k]).evidence.range,
        out[k].package.key.name,
    ) by {
        if k < s.found.len() {
            assert(out[k] == s.found[k]);
        }
    }
}

proof fn lemma_lock_scan(src: Seq<char>, path: Seq<char>, i: int)
    requires
        0 <= i <= lines_of(src).len(),
        encode_utf8(src).len() <= usize::MAX,
    ensures
        ({
            let bytes = encode_utf8(src);
            let s = lock_scan(bytes, path, lines_of(src).take(i));
            &&& s.offset == utf8_len(joined(lines_of(src).take(i)))
            &&& names_hold(bytes, s.found)
            &&& name_stands(bytes, s.name)
        }),
    decreases i,
{
    let bytes = encode_utf8(src);
    let file = lines_of(src);
    if i == 0 {
        assert(file.take(0) =~= seq![]);
        assert(joined(file.take(0)) =~= seq![]);
    } else {
        lemma_lock_scan(src, path, i - 1);
        assert(file.take(i).drop_last() =~= file.take(i - 1));
        let line = file[i - 1];
        assert(file.take(i).last() == line);
        let s = lock_scan(bytes, path, file.take(i - 1));
        lemma_utf8_add(joined(file.take(i - 1)), line);
        lemma_lock_name(src, i - 1);
        lemma_flushed(bytes, path, s);
    }
}

/// The span of a locked crate covers exactly its name, whatever stands around
/// it on the line.
pub proof fn a_locked_crate_is_found_at_its_name(src: Seq<char>, path: Seq<char>, i: int)
    requires
        encode_utf8(src).len() <= usize::MAX,
        0 <= i < cargo_lock_of(src, path).len(),
    ensures
        covers(
            encode_utf8(src),
            cargo_lock_of(src, path)[i].evidence.range,
            cargo_lock_of(src, path)[i].package.key.name,
        ),
{
    let file = lines_of(src);
    lemma_lock_scan(src, path, file.len() as int);
    assert(file.take(file.len() as int) =~= file);
    lemma_flushed(encode_utf8(src), path, lock_scan(encode_utf8(src), path, file));
}

// ---- where packages are found ----

/// Whether a sighting is where its package's name is written.
spec fn is_placed(bytes: Seq<u8>, x: ExtractedView) -> bool {
    covers(bytes, x.evidence.range, x.package.key.name)
}

spec fn placed_where_spanned(bytes: Seq<u8>, found: Seq<ExtractedView>) -> bool {
    forall|k: int|
        0 <= k < found.len() && (#[trigger] found[k]).version_span is Some ==> is_placed(
            bytes,
            found[k],
        )
}

proof fn lemma_requirement_name(src: Seq<char>, path: Seq<char>, i: int)
    requires
        0 <= i < lines_of(src).len(),
        encode_utf8(src).len() <= usize::MAX,
    ensures
        ({
            let off = utf8_len(joined(lines_of(src).take(i))) as int;
            let text = trim_end_of(lines_of(src)[i], Class::LineEnd);
            requirement_of(encode_utf8(src), path, text, off, true) matches Some(x) ==> is_placed(
                encode_utf8(src),
                x,
            )
        }),
{
    let bytes = encode_utf8(src);
    let raw = lines_of(src)[i];
    let off = utf8_len(joined(lines_of(src).take(i))) as int;
    let line = trim_end_of(raw, Class::LineEnd);
    lemma_trailing_is(raw, Class::LineEnd);
    if let Some(x) = requirement_of(bytes, path, line, off, true) {
        let name = x.package.key.name;
        lemma_find(line, name, 0);
        let at = find_of(line, name)->Some_0 as int;
        assert(line.subrange(at, at + name.len()) =~= raw.subrange(at, at + name.len()));
        assert(line.take(at) =~= raw.take(at));
        lemma_in_file(src, i, at, at + name.len());
        lemma_covers(bytes, off + utf8_len(line.take(at)), name);
    }
}

proof fn lemma_pip_names(src: Seq<char>, path: Seq<char>, i: int)
    requires
        0 <= i <= lines_of(src).len(),
        encode_utf8(src).len() <= usize::MAX,
    ensures
        placed_where_spanned(
            encode_utf8(src),
            pip_scan(encode_utf8(src), path, lines_of(src).take(i)).found,
        ),
    decreases i,
{
    let bytes = encode_utf8(src);
    let file = lines_of(src);
    if i > 0 {
        lemma_pip_names(src, path, i - 1);
        lemma_pip_scan(src, path, i - 1);
        assert(file.take(i).drop_last() =~= file.take(i - 1));
        let line = file[i - 1];
        assert(file.take(i).last() == line);
        let s = pip_scan(bytes, path, file.take(i - 1));
        let t = pip_scan(bytes, path, file.take(i));
        let text = trim_end_of(line, Class::LineEnd);
        lemma_requirement_name(src, path, i - 1);
        if s.pending.len() == 0 {
            assert(s.pending + text =~= text);
        }
        assert forall|k: int|
            0 <= k < t.found.len() && (#[trigger] t.found[k]).version_span is Some implies is_placed(
            bytes,
            t.found[k],
        ) by {
            if k < s.found.len() {
                assert(t.found[k] == s.found[k]);
            }
        }
    }
}

proof fn lemma_line_in(src: Seq<char>, i: int, j: int)
    requires
        0 <= i < lines_of(src).len(),
        0 <= j < lines_of(src)[i].len(),
    ensures
        src.contains(lines_of(src)[i][j]),
{
    let file = lines_of(src);
    lemma_lines_joined(src);
    lemma_joined_split(file, i + 1);
    let rest = choose|rest: Seq<char>|
        joined(file) == #[trigger] (joined(file.take(i + 1)) + rest);
    assert(file.take(i + 1).drop_last() =~= file.take(i));
    assert(file.take(i + 1).last() == file[i]);
    let at = joined(file.take(i)).len() + j;
    assert(joined(file.take(i + 1)) == joined(file.take(i)) + file[i]);
    assert(src[at] == file[i][j]);
}

proof fn lemma_pip_spans(src: Seq<char>, path: Seq<char>, i: int)
    requires
        0 <= i <= lines_of(src).len(),
        !src.contains('\\'),
    ensures
        ({
            let s = pip_scan(encode_utf8(src), path, lines_of(src).take(i));
            &&& s.pending.len() == 0
            &&& forall|k: int| 0 <= k < s.found.len() ==> (#[trigger] s.found[k]).version_span is Some
        }),
    decreases i,
{
    let bytes = encode_utf8(src);
    let file = lines_of(src);
    if i > 0 {
        lemma_pip_spans(src, path, i - 1);
        assert(file.take(i).drop_last() =~= file.take(i - 1));
        let line = file[i - 1];
        assert(file.take(i).last() == line);
        let s = pip_scan(bytes, path, file.take(i - 1));
        let t = pip_scan(bytes, path, file.take(i));
        let text = trim_end_of(line, Class::LineEnd);
        lemma_trailing_is(line, Class::LineEnd);
        if text.len() > 0 {
            assert(text.last() == line[text.len() - 1]);
            lemma_line_in(src, i - 1, text.len() - 1);
        }
        assert forall|k: int| 0 <= k < t.found.len() implies (
        #[trigger] t.found[k]).version_span is Some by {
            if k < s.found.len() {
                assert(t.found[k] == s.found[k]);
            }
        }
    }
}

/// A requirement is found at its name wherever its version has a span, and it
/// has one wherever no line is carried on.
pub proof fn a_requirement_is_found_at_its_name(src: Seq<char>, path: Seq<char>, i: int)
    requires
        encode_utf8(src).len() <= usize::MAX,
        0 <= i < requirements_of(src, path).len(),
    ensures
        requirements_of(src, path)[i].version_span is Some ==> covers(
            encode_utf8(src),
            requirements_of(src, path)[i].evidence.range,
            requirements_of(src, path)[i].package.key.name,
        ),
        !src.contains('\\') ==> requirements_of(src, path)[i].version_span is Some,
{
    let file = lines_of(src);
    assert(file.take(file.len() as int) =~= file);
    lemma_pip_names(src, path, file.len() as int);
    assert(is_placed(encode_utf8(src), requirements_of(src, path)[i]) || requirements_of(
        src,
        path,
    )[i].version_span is None);
    if !src.contains('\\') {
        lemma_pip_spans(src, path, file.len() as int);
    }
}

proof fn lemma_require_name(src: Seq<char>, path: Seq<char>, i: int)
    requires
        0 <= i < lines_of(src).len(),
        encode_utf8(src).len() <= usize::MAX,
    ensures
        ({
            let off = utf8_len(joined(lines_of(src).take(i))) as int;
            require_of(encode_utf8(src), path, code_of(lines_of(src)[i]), off) matches Some(x)
                ==> is_placed(encode_utf8(src), x) && x.version_span is Some
        }),
{
    let bytes = encode_utf8(src);
    let line = lines_of(src)[i];
    let off = utf8_len(joined(lines_of(src).take(i))) as int;
    let code = code_of(line);
    lemma_code_prefix(line);
    if let Some(x) = require_of(bytes, path, code, off) {
        let name = x.package.key.name;
        lemma_find(code, name, 0);
        let at = find_of(code, name)->Some_0 as int;
        assert(code.subrange(at, at + name.len()) =~= line.subrange(at, at + name.len()));
        assert(code.take(at) =~= line.take(at));
        lemma_in_file(src, i, at, at + name.len());
        lemma_covers(bytes, off + utf8_len(code.take(at)), name);
    }
}

spec fn modules_placed(bytes: Seq<u8>, found: Seq<ExtractedView>) -> bool {
    forall|k: int|
        0 <= k < found.len() ==> is_placed(bytes, #[trigger] found[k])
            && found[k].version_span is Some
}

proof fn lemma_go_names(src: Seq<char>, path: Seq<char>, i: int)
    requires
        0 <= i <= lines_of(src).len(),
        encode_utf8(src).len() <= usize::MAX,
    ensures
        modules_placed(
            encode_utf8(src),
            scan_of(encode_utf8(src), path, lines_of(src).take(i)).required,
        ),
    decreases i,
{
    let bytes = encode_utf8(src);
    let file = lines_of(src);
    if i > 0 {
        lemma_go_names(src, path, i - 1);
        lemma_go_scan(src, path, i - 1);
        assert(file.take(i).drop_last() =~= file.take(i - 1));
        let line = file[i - 1];
        assert(file.take(i).last() == line);
        let s = scan_of(bytes, path, file.take(i - 1));
        let t = scan_of(bytes, path, file.take(i));
        lemma_require_name(src, path, i - 1);
        let x = require_of(bytes, path, code_of(line), s.offset as int);
        assert(t.required == s.required || t.required == and(s.required, x));
        assert forall|k: int| 0 <= k < t.required.len() implies is_placed(
            bytes,
            #[trigger] t.required[k],
        ) && t.required[k].version_span is Some by {
            if k < s.required.len() {
                assert(t.required[k] == s.required[k]);
            }
        }
    }
}

/// Where a module is found that something may replace: at its own name, with its
/// version's span; or at the name of what is replaced, with none.
pub open spec fn module_placed(bytes: Seq<u8>, x: ExtractedView, replaces: Seq<ReplaceView>) -> bool {
    if x.version_span is Some {
        covers(bytes, x.evidence.range, x.package.key.name)
    } else {
        exists|k: int|
            0 <= k < replaces.len() && covers(
                bytes,
                x.evidence.range,
                (#[trigger] replaces[k]).old,
            ) && replaces[k].new == Some((x.package.key.name, x.package.version))
    }
}

proof fn lemma_applicable(replaces: Seq<ReplaceView>, x: ExtractedView)
    ensures
        applicable(replaces, x) matches Some(r) ==> r.old == x.package.key.name && exists|k: int|
            0 <= k < replaces.len() && #[trigger] replaces[k] == r,
    decreases replaces.len(),
{
    if replaces.len() > 0 {
        let rest = replaces.skip(1);
        lemma_applicable(rest, x);
        if let Some(r) = applicable(replaces, x) {
            if replaces[0] != r {
                let k = choose|k: int| 0 <= k < rest.len() && #[trigger] rest[k] == r;
                assert(replaces[k + 1] == r);
            }
        }
    }
}

proof fn lemma_replaced_names(
    bytes: Seq<u8>,
    replaces: Seq<ReplaceView>,
    found: Seq<ExtractedView>,
    path: Seq<char>,
)
    requires
        modules_placed(bytes, found),
    ensures
        forall|k: int|
            0 <= k < all_replaced(replaces, found, path).len() ==> module_placed(
                bytes,
                #[trigger] all_replaced(replaces, found, path)[k],
                replaces,
            ),
    decreases found.len(),
{
    if found.len() > 0 {
        let front = found.drop_last();
        assert forall|k: int| 0 <= k < front.len() implies is_placed(bytes, #[trigger] front[k])
            && front[k].version_span is Some by {
            assert(front[k] == found[k]);
        }
        lemma_replaced_names(bytes, replaces, front, path);
        let kept = all_replaced(replaces, front, path);
        let out = all_replaced(replaces, found, path);
        let x = found[found.len() - 1];
        assert(is_placed(bytes, x) && x.version_span is Some);
        lemma_applicable(replaces, x);
        assert forall|k: int| 0 <= k < out.len() implies module_placed(
            bytes,
            #[trigger] out[k],
            replaces,
        ) by {
            if k < kept.len() {
                assert(out[k] == kept[k]);
            } else if applicable(replaces, x) is Some {
                let r = applicable(replaces, x)->Some_0;
                let j = choose|j: int| 0 <= j < replaces.len() && #[trigger] replaces[j] == r;
                assert(covers(bytes, out[k].evidence.range, replaces[j].old));
            }
        }
    }
}

/// A module is found where it is required, and the toolchain at its version.
pub proof fn a_module_is_found_where_it_is_required(src: Seq<char>, path: Seq<char>, i: int)
    requires
        encode_utf8(src).len() <= usize::MAX,
        0 <= i < go_mod_of(src, path).len(),
    ensures
        ({
            let x = go_mod_of(src, path)[i];
            ||| module_placed(
                encode_utf8(src),
                x,
                scan_of(encode_utf8(src), path, lines_of(src)).replaces,
            )
            ||| x.package.key.name == crate::model::GO_TOOLCHAIN@ && x.version_span == Some(
                x.evidence.range,
            )
        }),
{
    let bytes = encode_utf8(src);
    let file = lines_of(src);
    lemma_go_names(src, path, file.len() as int);
    assert(file.take(file.len() as int) =~= file);
    let s = scan_of(bytes, path, file);
    lemma_replaced_names(bytes, s.replaces, s.required, path);
    let modules = all_replaced(s.replaces, s.required, path);
    if i < modules.len() {
        assert(go_mod_of(src, path)[i] == modules[i]);
    }
}

/// Whether a crate is found at a key, without the space around that, and has a
/// span for its version where that is one.
pub open spec fn keyed_at(bytes: Seq<u8>, x: ExtractedView, key: Seq<char>) -> bool {
    &&& covers(bytes, x.evidence.range, key)
    &&& key.len() > 0
    &&& !is_space(key[0])
    &&& !is_space(key[key.len() - 1])
    &&& x.version_span is Some || lowest_of(x.package.version) is None
}

/// Whether a crate is found at some key.
pub open spec fn is_keyed(bytes: Seq<u8>, x: ExtractedView) -> bool {
    exists|key: Seq<char>| keyed_at(bytes, x, key)
}

spec fn all_keyed(bytes: Seq<u8>, found: Seq<ExtractedView>) -> bool {
    forall|k: int| 0 <= k < found.len() ==> is_keyed(bytes, #[trigger] found[k])
}

proof fn lemma_declared_key(src: Seq<char>, path: Seq<char>, i: int, section: int)
    requires
        0 <= i < lines_of(src).len(),
        encode_utf8(src).len() <= usize::MAX,
    ensures
        ({
            let off = utf8_len(joined(lines_of(src).take(i))) as int;
            declared_of(
                encode_utf8(src),
                path,
                uncommented(lines_of(src)[i]),
                off,
                section,
            ) matches Some(x) ==> is_keyed(encode_utf8(src), x)
        }),
{
    let bytes = encode_utf8(src);
    let raw = lines_of(src)[i];
    let off = utf8_len(joined(lines_of(src).take(i))) as int;
    let line = uncommented(raw);
    lemma_uncommented_prefix(raw);
    if let Some(x) = declared_of(bytes, path, line, off, section) {
        let d = dependency_of(line)->Some_0;
        lemma_first_of_is(line, Class::One('='));
        let eq = first_of(line, Class::One('='))->Some_0 as int;
        let left = line.take(eq);
        lemma_leading_is(left, Class::Space);
        lemma_trailing_is(left, Class::Space);
        let (a, b) = (d.key.0 as int, d.key.1 as int);
        let key = line.subrange(a, b);
        assert(key =~= raw.subrange(a, b));
        assert(line.take(a) =~= raw.take(a));
        assert(line.take(b) =~= line.take(a) + key);
        lemma_utf8_add(line.take(a), key);
        lemma_in_file(src, i, a, b);
        let at = off + utf8_len(line.take(a));
        assert(stands_at(bytes, at, key));
        assert(x.evidence.range == range_of(bytes, at, at + utf8_len(key)));
        assert(key[0] == left[a]);
        assert(key[key.len() - 1] == left[b - 1]);
        assert(keyed_at(bytes, x, key));
    }
}

proof fn lemma_keyed_more(bytes: Seq<u8>, list: Seq<ExtractedView>, more: Option<ExtractedView>)
    requires
        all_keyed(bytes, list),
        more matches Some(x) ==> is_keyed(bytes, x),
    ensures
        all_keyed(bytes, and_one(list, more)),
{
    let out = and_one(list, more);
    assert forall|k: int| 0 <= k < out.len() implies is_keyed(bytes, #[trigger] out[k]) by {
        if k < list.len() {
            assert(out[k] == list[k]);
        }
    }
}

proof fn lemma_toml_keys(src: Seq<char>, path: Seq<char>, i: int)
    requires
        0 <= i <= lines_of(src).len(),
        encode_utf8(src).len() <= usize::MAX,
    ensures
        ({
            let s = toml_scan(encode_utf8(src), path, lines_of(src).take(i));
            &&& all_keyed(encode_utf8(src), s.shipped)
            &&& all_keyed(encode_utf8(src), s.build)
            &&& all_keyed(encode_utf8(src), s.dev)
        }),
    decreases i,
{
    let bytes = encode_utf8(src);
    let file = lines_of(src);
    if i > 0 {
        lemma_toml_keys(src, path, i - 1);
        lemma_toml_scan(src, path, i - 1);
        assert(file.take(i).drop_last() =~= file.take(i - 1));
        let line = file[i - 1];
        assert(file.take(i).last() == line);
        let s = toml_scan(bytes, path, file.take(i - 1));
        if s.section is Some {
            let section = s.section->Some_0;
            lemma_declared_key(src, path, i - 1, section);
            let x = declared_of(bytes, path, uncommented(line), s.offset as int, section);
            lemma_keyed_more(bytes, s.shipped, x);
            lemma_keyed_more(bytes, s.build, x);
            lemma_keyed_more(bytes, s.dev, x);
        }
    }
}

/// A declared crate is found at the key that declares it, without the space
/// around that, and its version has a span wherever its requirement names one.
pub proof fn a_declared_crate_is_found_at_its_key(src: Seq<char>, path: Seq<char>, i: int)
    requires
        encode_utf8(src).len() <= usize::MAX,
        0 <= i < cargo_toml_of(src, path).len(),
    ensures
        is_keyed(encode_utf8(src), cargo_toml_of(src, path)[i]),
{
    let bytes = encode_utf8(src);
    let file = lines_of(src);
    lemma_toml_keys(src, path, file.len() as int);
    assert(file.take(file.len() as int) =~= file);
    let s = toml_scan(bytes, path, file);
    let all = s.shipped + s.build + s.dev;
    let found = cargo_toml_of(src, path);
    crate::manifest::first_of_each_lists_each_once(all);
    assert(all.contains(found[i]));
    let k = choose|k: int| 0 <= k < all.len() && all[k] == found[i];
    if k < s.shipped.len() {
        assert(all[k] == s.shipped[k]);
    } else if k < s.shipped.len() + s.build.len() {
        assert(all[k] == s.build[k - s.shipped.len()]);
    } else {
        assert(all[k] == s.dev[k - s.shipped.len() - s.build.len()]);
    }
}

/// The key of a declared crate is the crate's own name, in quotes or without,
/// wherever its line names no other package.
pub proof fn a_key_is_the_name_where_nothing_is_renamed(
    bytes: Seq<u8>,
    path: Seq<char>,
    line: Seq<char>,
    start: int,
    section: int,
)
    requires
        declared_of(bytes, path, line, start, section) is Some,
        find_of(line, "package"@) is None,
    ensures
        exists|a: int, b: int|
            0 <= a < b <= line.len() && #[trigger] line.subrange(a, b) == trim_of(
                line.take(first_of(line, Class::One('='))->Some_0 as int),
                Class::Space,
            ) && trim_of(line.subrange(a, b), Class::Quote) == declared_of(
                bytes,
                path,
                line,
                start,
                section,
            )->Some_0.package.key.name,
{
    let d = dependency_of(line)->Some_0;
    lemma_first_of_is(line, Class::One('='));
    let eq = first_of(line, Class::One('='))->Some_0 as int;
    let left = line.take(eq);
    let value = line.skip(eq + 1);
    lemma_leading_is(left, Class::Space);
    lemma_trailing_is(left, Class::Space);
    let tail = trim_start_of(left, Class::Space);
    let (a, b) = (d.key.0 as int, d.key.1 as int);
    lemma_trimmed(left, a, b);
    assert(line.subrange(a, b) =~= left.subrange(a, b));
    lemma_no_find(line, "package"@, eq + 1);
}

/// What does not stand in a text does not stand in its end.
proof fn lemma_no_find(s: Seq<char>, needle: Seq<char>, at: int)
    requires
        0 <= at <= s.len(),
        find_of(s, needle) is None,
    ensures
        find_of(s.skip(at), needle) is None,
{
    let tail = s.skip(at);
    lemma_find(tail, needle, 0);
    if let Some(i) = find_of(tail, needle) {
        assert(s.subrange(at + i, at + i + needle.len()) =~= tail.subrange(
            i as int,
            (i + needle.len()) as int,
        ));
        lemma_finds(s, needle, 0, at + i);
    }
}

proof fn lemma_finds(s: Seq<char>, needle: Seq<char>, from: nat, at: int)
    requires
        from <= at,
        at + needle.len() <= s.len(),
        s.subrange(at, at + needle.len()) == needle,
    ensures
        crate::text::find_from(s, needle, from) is Some,
    decreases at - from,
{
    if from < at {
        lemma_finds(s, needle, from + 1, at);
    }
}

} // verus!
