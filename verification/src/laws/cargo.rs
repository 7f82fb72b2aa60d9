//! What a `Cargo.lock` or `Cargo.toml` that is written down is read as.
use crate::laws::reports::{gist, gists, lemma_gists_push, reported, Gist};
use crate::laws::writing::{
    lacks, lemma_before, lemma_lines_concat, lemma_one_line, lemma_trim_back, lemma_trim_front,
    lemma_trimmed, line, whole_lines,
};
use crate::manifest::cargo::{
    cargo_lock_of, comment_from, lock_flush, lock_scan, lock_step, quoted_of, quoted_text,
    uncommented, value_of, LockScan,
};
use crate::model::Ecosystem;
use crate::text::{is_space, lines_of, trim_end_of, trim_of, Class};
use vstd::prelude::*;
use vstd::utf8::encode_utf8;

verus! {

// ---- quoting ----

/// Whether a text holds neither a quote nor the sign of a comment.
pub open spec fn bare_text(s: Seq<char>) -> bool {
    forall|i: int| 0 <= i < s.len() ==> #[trigger] s[i] != '"' && s[i] != '\'' && s[i] != '#'
}

pub proof fn lemma_comment_skip(l: Seq<char>, i: nat, j: nat, quote: Option<char>)
    requires
        i <= j <= l.len(),
        forall|n: int|
            i <= n < j ==> match quote {
                Some(open) => #[trigger] l[n] != open,
                None => l[n] != '"' && l[n] != '\'' && l[n] != '#',
            },
    ensures
        comment_from(l, i, quote) == comment_from(l, j, quote),
    decreases j - i,
{
    if i < j {
        assert(l[i as int] == l[i as int]);
        lemma_comment_skip(l, i + 1, j, quote);
    }
}

/// A text between double quotes.
pub open spec fn quoted(s: Seq<char>) -> Seq<char> {
    seq!['"'] + s + seq!['"']
}

/// A line of a key and a quoted value holds no comment.
pub proof fn lemma_no_comment(a: Seq<char>, v: Seq<char>, b: Seq<char>)
    requires
        bare_text(a),
        lacks(v, '"'),
        bare_text(b),
        (a + quoted(v) + b).len() > 0 ==> !Class::LineEnd.has((a + quoted(v) + b).last()),
    ensures
        uncommented(line(a + quoted(v) + b)) == a + quoted(v) + b,
{
    let s = a + quoted(v) + b;
    let l = line(s);
    let n1 = a.len();
    let n2 = n1 + 1 + v.len();
    assert forall|n: int| 0 <= n < n1 implies l[n] != '"' && l[n] != '\'' && l[n] != '#' by {
        assert(l[n] == a[n]);
    }
    lemma_comment_skip(l, 0, n1, None);
    assert(l[n1 as int] == '"');
    assert forall|n: int| n1 + 1 <= n < n2 implies #[trigger] l[n] != '"' by {
        assert(l[n] == v[n - n1 - 1]);
    }
    lemma_comment_skip(l, n1 + 1, n2, Some('"'));
    assert(l[n2 as int] == '"');
    assert forall|n: int| n2 + 1 <= n < l.len() implies l[n] != '"' && l[n] != '\'' && l[n]
        != '#' by {
        if n < s.len() {
            assert(l[n] == b[n - n2 - 1]);
        }
    }
    lemma_comment_skip(l, n2 + 1, l.len(), None);
    assert(comment_from(l, n1, None) == comment_from(l, n1 + 1, Some('"')));
    assert(comment_from(l, n2, Some('"')) == comment_from(l, n2 + 1, None));
    lemma_trim_back(s, seq!['\n'], Class::LineEnd);
}

/// A line without quotes or comments is all there is to it.
pub proof fn lemma_bare_line(s: Seq<char>)
    requires
        bare_text(s),
        s.len() > 0 ==> !Class::LineEnd.has(s[s.len() - 1]),
    ensures
        uncommented(line(s)) == s,
{
    let l = line(s);
    assert forall|n: int| 0 <= n < l.len() implies l[n] != '"' && l[n] != '\'' && l[n] != '#' by {
        if n < s.len() {
            assert(l[n] == s[n]);
        }
    }
    lemma_comment_skip(l, 0, l.len(), None);
    lemma_trim_back(s, seq!['\n'], Class::LineEnd);
}

pub proof fn lemma_quoted_in(a: Seq<char>, v: Seq<char>, b: Seq<char>)
    requires
        bare_text(a),
        lacks(v, '"'),
    ensures
        quoted_of(a + quoted(v) + b) == Some((a.len() + 1, a.len() + 1 + v.len())),
        (a + quoted(v) + b).subrange(a.len() as int + 1, (a.len() + 1 + v.len()) as int) == v,
{
    let s = a + quoted(v) + b;
    let k = Class::Quote;
    assert forall|i: int| 0 <= i < a.len() implies !k.has(#[trigger] a[i]) by {}
    let rest = quoted(v) + b;
    assert(s =~= a + rest);
    assert(rest[0] == '"');
    lemma_before(a, rest, k);
    assert(s[a.len() as int] == '"');
    let inside = s.skip(a.len() as int + 1);
    let close = seq!['"'] + b;
    assert(inside =~= v + close);
    assert(close[0] == '"');
    lemma_before(v, close, Class::One('"'));
    assert(s.subrange(a.len() as int + 1, (a.len() + 1 + v.len()) as int) =~= v);
}

// ---- lockfiles ----

/// A line that gives a key a quoted value.
pub open spec fn gives(key: Seq<char>, value: Seq<char>) -> Seq<char> {
    key + " = "@ + quoted(value)
}

/// A package of a lockfile, as its record is written.
pub open spec fn lock_record(name: Seq<char>, version: Seq<char>) -> Seq<char> {
    line("[[package]]"@) + line(gives("name"@, name)) + line(gives("version"@, version))
}

proof fn lemma_gives(key: Seq<char>, value: Seq<char>)
    requires
        bare_text(key),
        key.len() > 0,
        !is_space(key[0]),
        lacks(value, '"'),
        lacks(value, '\n'),
        lacks(key, '\n'),
    ensures
        ({
            let l = uncommented(line(gives(key, value)));
            &&& l == gives(key, value)
            &&& trim_of(l, Class::Space) == l
            &&& lacks(l, '\n')
            &&& value_of(l, key) == Some(seq![' '] + quoted(value))
            &&& quoted_text(value_of(l, key)) == Some(value)
        }),
{
    reveal_strlit(" = ");
    let a = key + " = "@;
    let s = gives(key, value);
    assert forall|i: int| 0 <= i < a.len() implies #[trigger] a[i] != '"' && a[i] != '\'' && a[i]
        != '#' by {
        if i < key.len() {
            assert(a[i] == key[i]);
        }
    }
    assert(s =~= a + quoted(value) + seq![]);
    assert(s[s.len() - 1] == '"');
    lemma_no_comment(a, value, seq![]);
    assert(s[0] == key[0]);
    lemma_trimmed(s, Class::Space);
    assert forall|i: int| 0 <= i < s.len() implies #[trigger] s[i] != '\n' by {
        if i < key.len() {
            assert(s[i] == key[i]);
        } else if i >= a.len() + 1 && i < s.len() - 1 {
            assert(s[i] == value[i - a.len() - 1]);
        }
    }
    assert(key.is_prefix_of(s)) by {
        assert(s.take(key.len() as int) =~= key);
    }
    let rest = s.skip(key.len() as int);
    let from = seq!['=', ' '] + quoted(value);
    assert(rest =~= seq![' '] + from);
    assert(is_space(' '));
    lemma_trim_front(seq![' '], from, Class::Space);
    assert(from.skip(1) =~= seq![' '] + quoted(value));
    let v = seq![' '] + quoted(value);
    lemma_quoted_in(seq![' '], value, seq![]);
    assert(seq![' '] + quoted(value) + seq![] =~= v);
}

/// What a lockfile scan holds, apart from places.
pub open spec fn same_open(s: LockScan, t: LockScan) -> bool {
    &&& s.version == t.version
    &&& match (s.name, t.name) {
        (Some(a), Some(b)) => a.0 == b.0,
        (None, None) => true,
        _ => false,
    }
}

proof fn lemma_flush(
    b: Seq<u8>,
    c: Seq<u8>,
    path: Seq<char>,
    s: LockScan,
    t: LockScan,
    before: Seq<Gist>,
)
    requires
        same_open(s, t),
        gists(s.found) == before + gists(t.found),
    ensures
        ({
            let (u, v) = (lock_flush(b, path, s), lock_flush(c, path, t));
            same_open(u, v) && gists(u.found) == before + gists(v.found)
        }),
{
    let (u, v) = (lock_flush(b, path, s), lock_flush(c, path, t));
    if s.name is Some && s.version is Some {
        lemma_gists_push(s.found, u.found.last());
        lemma_gists_push(t.found, v.found.last());
        assert(u.found =~= s.found.push(u.found.last()));
        assert(v.found =~= t.found.push(v.found.last()));
        assert(gist(u.found.last()) == gist(v.found.last()));
        assert((before + gists(t.found)).push(gist(v.found.last())) =~= before + gists(
            t.found,
        ).push(gist(v.found.last())));
    }
}

proof fn lemma_lock_step(
    b: Seq<u8>,
    c: Seq<u8>,
    path: Seq<char>,
    s: LockScan,
    t: LockScan,
    before: Seq<Gist>,
    l: Seq<char>,
)
    requires
        same_open(s, t),
        gists(s.found) == before + gists(t.found),
    ensures
        ({
            let (u, v) = (lock_step(b, path, s, l), lock_step(c, path, t, l));
            same_open(u, v) && gists(u.found) == before + gists(v.found)
        }),
{
    lemma_flush(b, c, path, s, t, before);
}

proof fn lemma_lock_goes_on(
    b: Seq<u8>,
    c: Seq<u8>,
    path: Seq<char>,
    x: Seq<Seq<char>>,
    y: Seq<Seq<char>>,
    before: Seq<Gist>,
    rest: Seq<Seq<char>>,
)
    requires
        same_open(lock_scan(b, path, x), lock_scan(c, path, y)),
        gists(lock_scan(b, path, x).found) == before + gists(lock_scan(c, path, y).found),
    ensures
        same_open(lock_scan(b, path, x + rest), lock_scan(c, path, y + rest)),
        gists(lock_scan(b, path, x + rest).found) == before + gists(
            lock_scan(c, path, y + rest).found,
        ),
    decreases rest.len(),
{
    if rest.len() == 0 {
        assert(x + rest =~= x);
        assert(y + rest =~= y);
    } else {
        lemma_lock_goes_on(b, c, path, x, y, before, rest.drop_last());
        assert((x + rest).drop_last() =~= x + rest.drop_last());
        assert((y + rest).drop_last() =~= y + rest.drop_last());
        lemma_lock_step(
            b,
            c,
            path,
            lock_scan(b, path, x + rest.drop_last()),
            lock_scan(c, path, y + rest.drop_last()),
            before,
            rest.last(),
        );
    }
}

/// A record's header.
proof fn lemma_header()
    ensures
        uncommented(line("[[package]]"@)) == "[[package]]"@,
        trim_of("[[package]]"@, Class::Space) == "[[package]]"@,
        "[["@.is_prefix_of("[[package]]"@),
        lacks("[[package]]"@, '\n'),
{
    reveal_strlit("[[package]]");
    reveal_strlit("[[");
    lemma_bare_line("[[package]]"@);
    lemma_trimmed("[[package]]"@, Class::Space);
    assert("[[package]]"@.take(2) =~= "[["@);
}

proof fn lemma_step_header(b: Seq<u8>, path: Seq<char>, s: LockScan)
    ensures
        ({
            let u = lock_step(b, path, s, line("[[package]]"@));
            &&& u.name is None && u.version is None
            &&& u.found == lock_flush(b, path, s).found
        }),
{
    lemma_header();
}

proof fn lemma_step_name(b: Seq<u8>, path: Seq<char>, s: LockScan, name: Seq<char>)
    requires
        lacks(name, '"') && lacks(name, '\n'),
    ensures
        ({
            let u = lock_step(b, path, s, line(gives("name"@, name)));
            &&& u.name is Some && u.name->Some_0.0 == name
            &&& u.version == s.version && u.found == s.found
        }),
{
    reveal_strlit("name");
    reveal_strlit("[[");
    let n = gives("name"@, name);
    lemma_gives("name"@, name);
    assert(n[0] == 'n');
    assert(!"[["@.is_prefix_of(n)) by {
        assert("[["@[0] == '[');
    }
    let value = value_of(n, "name"@)->Some_0;
    let (x, y) = quoted_of(value)->Some_0;
    assert(value.subrange(x as int, y as int) == name);
}

proof fn lemma_step_version(b: Seq<u8>, path: Seq<char>, s: LockScan, version: Seq<char>)
    requires
        lacks(version, '"') && lacks(version, '\n'),
    ensures
        ({
            let u = lock_step(b, path, s, line(gives("version"@, version)));
            u.name == s.name && u.version == Some(version) && u.found == s.found
        }),
{
    reveal_strlit("name");
    reveal_strlit("version");
    reveal_strlit("[[");
    let v = gives("version"@, version);
    lemma_gives("version"@, version);
    assert(v[0] == 'v');
    assert(!"[["@.is_prefix_of(v)) by {
        assert("[["@[0] == '[');
    }
    assert(!"name"@.is_prefix_of(v)) by {
        assert("name"@[0] == 'n');
    }
    assert(value_of(v, "name"@) is None);
}

proof fn lemma_step_other(b: Seq<u8>, path: Seq<char>, s: LockScan, other: Seq<char>)
    requires
        says_nothing(other),
    ensures
        ({
            let u = lock_step(b, path, s, line(other));
            u.name == s.name && u.version == s.version && u.found == s.found
        }),
{
    lemma_first_char(other);
    reveal_strlit("[[");
    reveal_strlit("name");
    reveal_strlit("version");
    let trimmed = trim_of(uncommented(line(other)), Class::Space);
    assert(!"[["@.is_prefix_of(trimmed)) by {
        assert("[["@[0] == '[');
    }
    assert(!"name"@.is_prefix_of(trimmed)) by {
        assert("name"@[0] == 'n');
    }
    assert(!"version"@.is_prefix_of(trimmed)) by {
        assert("version"@[0] == 'v');
    }
    assert(value_of(trimmed, "name"@) is None);
    assert(value_of(trimmed, "version"@) is None);
}

proof fn lemma_record_lines(name: Seq<char>, version: Seq<char>)
    requires
        lacks(name, '"') && lacks(name, '\n'),
        lacks(version, '"') && lacks(version, '\n'),
    ensures
        lines_of(lock_record(name, version)) == seq![
            line("[[package]]"@),
            line(gives("name"@, name)),
            line(gives("version"@, version)),
        ],
{
    reveal_strlit("name");
    reveal_strlit("version");
    let h = "[[package]]"@;
    let n = gives("name"@, name);
    let v = gives("version"@, version);
    lemma_header();
    lemma_gives("name"@, name);
    lemma_gives("version"@, version);
    lemma_one_line(h);
    lemma_one_line(n);
    lemma_one_line(v);
    lemma_lines_concat(line(h), line(n));
    assert((line(h) + line(n)).last() == '\n');
    lemma_lines_concat(line(h) + line(n), line(v));
    assert(lines_of(lock_record(name, version)) =~= seq![line(h), line(n), line(v)]);
}

/// A record of a lockfile is reported at the version it is locked at.
pub proof fn a_locked_crate_is_reported(name: Seq<char>, version: Seq<char>, path: Seq<char>)
    requires
        lacks(name, '"') && lacks(name, '\n'),
        lacks(version, '"') && lacks(version, '\n'),
    ensures
        gists(cargo_lock_of(lock_record(name, version), path)) == seq![
            reported(Ecosystem::CratesIo, name, version, path, seq![], false),
        ],
{
    let src = lock_record(name, version);
    let bytes = encode_utf8(src);
    lemma_record_lines(name, version);
    let h = line("[[package]]"@);
    let n = line(gives("name"@, name));
    let v = line(gives("version"@, version));
    let l0 = Seq::<Seq<char>>::empty();
    let l1 = l0.push(h);
    let l2 = l1.push(n);
    let l3 = l2.push(v);
    assert(l1.drop_last() =~= l0);
    assert(l2.drop_last() =~= l1);
    assert(l3.drop_last() =~= l2);
    assert(lines_of(src) =~= l3);
    let s0 = lock_scan(bytes, path, l0);
    let s1 = lock_scan(bytes, path, l1);
    let s2 = lock_scan(bytes, path, l2);
    let s3 = lock_scan(bytes, path, l3);
    lemma_step_header(bytes, path, s0);
    assert(s0.found =~= seq![]);
    assert(s1.found =~= seq![]);
    lemma_step_name(bytes, path, s1, name);
    lemma_step_version(bytes, path, s2, version);
    let s4 = lock_flush(bytes, path, s3);
    assert(s4.found.len() == 1);
    assert(gists(s4.found) =~= seq![gist(s4.found[0])]);
}

/// A lockfile lists what its records list, one for one and in order: a crate
/// that is locked at two versions is reported at both.
pub proof fn locked_crates_add_up(a: Seq<char>, b: Seq<char>, path: Seq<char>)
    requires
        whole_lines(a),
        line("[[package]]"@).is_prefix_of(b),
    ensures
        gists(cargo_lock_of(a + b, path)) == gists(cargo_lock_of(a, path)) + gists(
            cargo_lock_of(b, path),
        ),
{
    let bytes = encode_utf8(a + b);
    let (ba, bb) = (encode_utf8(a), encode_utf8(b));
    let h = line("[[package]]"@);
    let back = b.skip(h.len() as int);
    assert(b =~= h + back);
    lemma_header();
    lemma_one_line("[[package]]"@);
    lemma_lines_concat(h, back);
    lemma_lines_concat(a, b);
    let (front, rest) = (lines_of(a), lines_of(back));
    let none = Seq::<Seq<char>>::empty();
    let no_gist = Seq::<Gist>::empty();
    // The first part alone.
    assert(gists(lock_scan(bytes, path, none).found) =~= no_gist + gists(
        lock_scan(ba, path, none).found,
    ));
    lemma_lock_goes_on(bytes, ba, path, none, none, no_gist, front);
    assert(none + front =~= front);
    let s = lock_scan(bytes, path, front);
    let t = lock_scan(ba, path, front);
    lemma_flush(bytes, ba, path, s, t, no_gist);
    let first = gists(cargo_lock_of(a, path));
    assert(gists(lock_flush(bytes, path, s).found) =~= first);
    // The header of the second part closes what was open.
    let one = front.push(h);
    let only = none.push(h);
    assert(one.drop_last() =~= front);
    assert(only.drop_last() =~= none);
    let s1 = lock_scan(bytes, path, one);
    let t1 = lock_scan(bb, path, only);
    lemma_step_header(bytes, path, s);
    lemma_step_header(bb, path, lock_scan(bb, path, none));
    assert(t1.found =~= seq![]);
    assert(gists(s1.found) =~= first + gists(t1.found));
    lemma_lock_goes_on(bytes, bb, path, one, only, first, rest);
    assert(one + rest =~= lines_of(a + b));
    assert(only + rest =~= lines_of(b));
    lemma_flush(
        bytes,
        bb,
        path,
        lock_scan(bytes, path, one + rest),
        lock_scan(bb, path, only + rest),
        first,
    );
}

/// Whether a line of a lockfile says neither a name nor a version, and opens no
/// record.
pub open spec fn says_nothing(text: Seq<char>) -> bool {
    lacks(text, '\n') && (text.len() > 0 ==> !is_space(text[0]) && text[0] != '[' && text[0] != 'n'
        && text[0] != 'v')
}

/// Other lines of a lockfile make no difference, wherever they stand.
pub proof fn other_lines_of_a_lockfile_do_not_count(
    a: Seq<char>,
    other: Seq<char>,
    b: Seq<char>,
    path: Seq<char>,
)
    requires
        whole_lines(a),
        says_nothing(other),
    ensures
        gists(cargo_lock_of(a + line(other) + b, path)) == gists(cargo_lock_of(a + b, path)),
{
    let src = a + line(other) + b;
    let (x, y) = (encode_utf8(src), encode_utf8(a + b));
    let l = line(other);
    lemma_one_line(other);
    lemma_lines_concat(l, b);
    lemma_lines_concat(a, b);
    lemma_lines_concat(a, l + b);
    assert(src =~= a + (l + b));
    let (front, rest) = (lines_of(a), lines_of(b));
    let none = Seq::<Seq<char>>::empty();
    let no_gist = Seq::<Gist>::empty();
    assert(gists(lock_scan(x, path, none).found) =~= no_gist + gists(
        lock_scan(y, path, none).found,
    ));
    lemma_lock_goes_on(x, y, path, none, none, no_gist, front);
    assert(none + front =~= front);
    let one = front.push(l);
    assert(one.drop_last() =~= front);
    let s = lock_scan(x, path, front);
    lemma_step_other(x, path, s, other);
    assert(lock_scan(x, path, one) == lock_step(x, path, s, l));
    lemma_lock_goes_on(x, y, path, one, front, no_gist, rest);
    assert(one + rest =~= lines_of(src));
    assert(front + rest =~= lines_of(a + b));
    lemma_flush(
        x,
        y,
        path,
        lock_scan(x, path, one + rest),
        lock_scan(y, path, front + rest),
        no_gist,
    );
    assert(no_gist + gists(cargo_lock_of(a + b, path)) =~= gists(cargo_lock_of(a + b, path)));
}

/// What a line begins with is what is left of it begins with.
pub proof fn lemma_first_char(text: Seq<char>)
    requires
        lacks(text, '\n'),
        text.len() > 0 ==> !is_space(text[0]),
    ensures
        ({
            let trimmed = trim_of(uncommented(line(text)), Class::Space);
            trimmed.len() > 0 ==> text.len() > 0 && trimmed[0] == text[0]
        }),
{
    let l = line(text);
    let u = uncommented(l);
    lemma_comment_in(l, 0, None);
    crate::text::lemma_trailing_is(l, Class::LineEnd);
    assert(u.len() <= l.len() && forall|i: int| 0 <= i < u.len() ==> u[i] == l[i]);
    if u.len() > 0 && text.len() > 0 {
        assert(u[0] == text[0]);
        lemma_trim_front(seq![], u, Class::Space);
        assert(seq![] + u =~= u);
        crate::text::lemma_trailing_is(u, Class::Space);
        let t = trim_end_of(u, Class::Space);
        if t.len() > 0 {
            assert(t[0] == u[0]);
        }
    } else if text.len() == 0 {
        assert(l =~= seq!['\n']);
        lemma_trim_back(seq![], seq!['\n'], Class::LineEnd);
        assert(seq![] + seq!['\n'] =~= l);
        lemma_comment_skip(l, 0, 1, None);
        assert(u =~= seq![]);
        lemma_trimmed(u, Class::Space);
    } else {
        lemma_trimmed(u, Class::Space);
    }
}

proof fn lemma_comment_in(l: Seq<char>, i: nat, quote: Option<char>)
    ensures
        comment_from(l, i, quote) matches Some(n) ==> i <= n < l.len(),
    decreases l.len() - i,
{
    if i < l.len() {
        let c = l[i as int];
        match quote {
            Some(open) => lemma_comment_in(l, i + 1, if c == open { None } else { Some(open) }),
            None => {
                if c == '"' || c == '\'' {
                    lemma_comment_in(l, i + 1, Some(c));
                } else if c != '#' {
                    lemma_comment_in(l, i + 1, None);
                }
            },
        }
    }
}

} // verus!
