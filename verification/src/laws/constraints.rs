//! Which version a constraint that is written down names as its lowest.
use crate::laws::writing::{blank, lacks, lemma_before, lemma_trim_back, lemma_trim_front};
use crate::manifest::{lowest_of, lowest_place, LowestView};
use crate::text::{
    before, first_of, is_alnum, is_digit, is_space, leading, lemma_first_of, lemma_first_of_is,
    lemma_utf8_add, trim_of, utf8_len, Class,
};
use vstd::prelude::*;

verus! {

/// Whether a text is spelled like a version: it starts with a digit.
pub open spec fn spelled(s: Seq<char>) -> bool {
    s.len() > 0 && is_digit(s[0]) && forall|i: int|
        0 <= i < s.len() ==> is_alnum(#[trigger] s[i]) || s[i] == '.' || s[i] == '-' || s[i] == '+'
}

/// Whether a text is an operator.
pub open spec fn operates(s: Seq<char>) -> bool {
    forall|i: int|
        0 <= i < s.len() ==> #[trigger] s[i] == '^' || s[i] == '~' || s[i] == '>' || s[i] == '<'
            || s[i] == '=' || s[i] == 'v' || s[i] == ' '
}

/// Whether a text does not go on spelling a version.
pub open spec fn breaks_off(s: Seq<char>) -> bool {
    s.len() > 0 ==> !is_alnum(s[0]) && s[0] != '.' && s[0] != '-' && s[0] != '+'
}

/// Whether a text names no protocol and no path.
pub open spec fn no_address(s: Seq<char>) -> bool {
    lacks(s, ':') && lacks(s, '/')
}

/// One step of the search: the first version, and what it is bounded by.
proof fn lemma_first_version(op: Seq<char>, v: Seq<char>, tail: Seq<char>)
    requires
        operates(op),
        spelled(v),
        breaks_off(tail),
    ensures
        ({
            let body = op + v + tail;
            &&& first_of(body, Class::Digit) == Some(op.len())
            &&& body.take(op.len() as int) == op
            &&& first_of(op, Class::NotOperator) is None
            &&& before(body.skip(op.len() as int), Class::NotSpelling) == v
        }),
{
    let body = op + v + tail;
    let rest = v + tail;
    assert(body =~= op + rest);
    assert(rest[0] == v[0]);
    lemma_before(op, rest, Class::Digit);
    assert(body.take(op.len() as int) =~= op);
    assert(body.skip(op.len() as int) =~= rest);
    lemma_first_of(op, Class::NotOperator, op.len());
    lemma_before(v, tail, Class::NotSpelling);
}

/// A version behind an operator that does not bound from above is the lowest
/// that the constraint admits, and its place is told in bytes.
pub proof fn a_lower_bound_names_the_lowest(
    lead: Seq<char>,
    op: Seq<char>,
    v: Seq<char>,
    tail: Seq<char>,
    trail: Seq<char>,
)
    requires
        blank(lead) && blank(trail),
        operates(op) && lacks(op, '<'),
        op.len() > 0 ==> op[0] != ' ',
        spelled(v),
        breaks_off(tail),
        tail.len() > 0 ==> !is_space(tail.last()),
        no_address(tail),
    ensures
        lowest_of(lead + op + v + tail + trail) == Some(
            LowestView {
                version: v,
                start: utf8_len(lead + op),
                end: utf8_len(lead + op + v),
            },
        ),
{
    let body = op + v + tail;
    let whole = lead + op + v + tail + trail;
    assert(whole =~= lead + body + trail);
    lemma_ends(op, v, tail);
    lemma_surrounded(lead, body, trail);
    lemma_lowest_at(op, v, tail);
    lemma_utf8_add(lead, op);
    lemma_utf8_add(lead + op, v);
}

proof fn lemma_ends(op: Seq<char>, v: Seq<char>, tail: Seq<char>)
    requires
        operates(op),
        op.len() > 0 ==> op[0] != ' ',
        spelled(v),
        tail.len() > 0 ==> !is_space(tail.last()),
        no_address(tail),
    ensures
        ({
            let body = op + v + tail;
            &&& body.len() > 0 && !is_space(body[0]) && !is_space(body[body.len() - 1])
            &&& no_address(body)
        }),
{
    let body = op + v + tail;
    assert(body[0] == (if op.len() > 0 {
        op[0]
    } else {
        v[0]
    }));
    assert(body[body.len() - 1] == (if tail.len() > 0 {
        tail.last()
    } else {
        v[v.len() - 1]
    }));
    assert forall|i: int| 0 <= i < body.len() implies #[trigger] body[i] != ':' && body[i] != '/' by {
        if i < op.len() {
            assert(body[i] == op[i]);
        } else if i < op.len() + v.len() {
            assert(body[i] == v[i - op.len()]);
        } else {
            assert(body[i] == tail[i - op.len() - v.len()]);
        }
    }
}

proof fn lemma_surrounded(lead: Seq<char>, body: Seq<char>, trail: Seq<char>)
    requires
        blank(lead) && blank(trail),
        body.len() > 0 && !is_space(body[0]) && !is_space(body[body.len() - 1]),
    ensures
        trim_of(lead + body + trail, Class::Space) == body,
        leading(lead + body + trail, Class::Space) == lead.len(),
        (lead + body + trail).take(lead.len() as int) == lead,
{
    let whole = lead + body + trail;
    assert(whole =~= lead + (body + trail));
    assert((body + trail)[0] == body[0]);
    lemma_trim_front(lead, body + trail, Class::Space);
    lemma_trim_back(body, trail, Class::Space);
    assert(whole.take(lead.len() as int) =~= lead);
}

proof fn lemma_lowest_at(op: Seq<char>, v: Seq<char>, tail: Seq<char>)
    requires
        operates(op) && lacks(op, '<'),
        spelled(v),
        breaks_off(tail),
        no_address(op + v + tail),
    ensures
        ({
            let body = op + v + tail;
            &&& first_of(body, Class::One(':')) is None && first_of(body, Class::One('/')) is None
            &&& lowest_place(body, 0) == Some(op.len())
            &&& before(body.skip(op.len() as int), Class::NotSpelling) == v
            &&& body.take(op.len() as int) == op
        }),
{
    let body = op + v + tail;
    lemma_first_of(body, Class::One(':'), body.len());
    lemma_first_of(body, Class::One('/'), body.len());
    lemma_first_version(op, v, tail);
    assert(body.skip(0) =~= body);
    lemma_first_of(op, Class::One('<'), op.len());
}

proof fn lemma_place_shift(a: Seq<char>, b: Seq<char>, from: nat)
    requires
        from <= b.len(),
    ensures
        lowest_place(a + b, a.len() + from) == (match lowest_place(b, from) {
            Some(n) => Some(n + a.len()),
            None => None,
        }),
    decreases b.len() - from,
{
    let s = a + b;
    if from < b.len() {
        let rest = b.skip(from as int);
        assert(s.skip((a.len() + from) as int) =~= rest);
        lemma_first_of_is(rest, Class::Digit);
        if let Some(n) = first_of(rest, Class::Digit) {
            lemma_first_of_is(rest.skip(n as int), Class::NotSpelling);
            let end = from + n + before(rest.skip(n as int), Class::NotSpelling).len();
            let next = if end < b.len() && b[end as int] == ',' {
                end + 1
            } else {
                end
            };
            if end < b.len() {
                assert(s[(a.len() + end) as int] == b[end as int]);
            }
            if from < next <= b.len() {
                lemma_place_shift(a, b, next);
            }
        }
    }
}

/// An upper bound is passed over: what it stands before names the lowest
/// version.
pub proof fn an_upper_bound_is_passed_over(
    op: Seq<char>,
    v: Seq<char>,
    rest: Seq<char>,
)
    requires
        operates(op) && op.len() > 0 && op[0] == '<',
        spelled(v),
        rest.len() > 0 && !is_space(rest[0]) && !is_space(rest.last()),
        no_address(rest),
    ensures
        match (lowest_of(op + v + seq![','] + rest), lowest_of(rest)) {
            (Some(x), Some(y)) => x.version == y.version && x.start == y.start + utf8_len(
                op + v + seq![','],
            ),
            (None, None) => true,
            _ => false,
        },
{
    let comma = seq![','];
    let head = op + v + comma;
    let body = head + rest;
    let tail = comma + rest;
    assert(body =~= op + v + tail);
    assert(tail.last() == rest.last());
    assert forall|i: int| 0 <= i < tail.len() implies #[trigger] tail[i] != ':' && tail[i] != '/' by {
        if i > 0 {
            assert(tail[i] == rest[i - 1]);
        }
    }
    lemma_ends(op, v, tail);
    lemma_plain(body);
    assert(!is_space(rest[rest.len() - 1]));
    lemma_plain(rest);
    lemma_passed(op, v, rest);
    match lowest_place(rest, 0) {
        Some(n) => {
            crate::manifest::lemma_lowest_place(rest, 0);
            assert(body.skip((n + head.len()) as int) =~= rest.skip(n as int));
            assert(body.take((n + head.len()) as int) =~= head + rest.take(n as int));
            lemma_utf8_add(head, rest.take(n as int));
        },
        None => {},
    }
}

/// The lowest version of a constraint that nothing surrounds.
proof fn lemma_plain(body: Seq<char>)
    requires
        body.len() > 0 && !is_space(body[0]) && !is_space(body[body.len() - 1]),
        no_address(body),
    ensures
        lowest_of(body) == (match lowest_place(body, 0) {
            None => None,
            Some(start) => {
                let version = before(body.skip(start as int), Class::NotSpelling);
                let at = utf8_len(body.take(start as int));
                Some(LowestView { version, start: at, end: at + utf8_len(version) })
            },
        }),
{
    let none = Seq::<char>::empty();
    lemma_surrounded(none, body, none);
    assert(none + body + none =~= body);
    lemma_first_of(body, Class::One(':'), body.len());
    lemma_first_of(body, Class::One('/'), body.len());
    assert(utf8_len(none) == 0);
}

proof fn lemma_passed(op: Seq<char>, v: Seq<char>, rest: Seq<char>)
    requires
        operates(op) && op.len() > 0 && op[0] == '<',
        spelled(v),
    ensures
        lowest_place(op + v + seq![','] + rest, 0) == (match lowest_place(rest, 0) {
            Some(n) => Some(n + (op + v + seq![',']).len()),
            None => None,
        }),
{
    let comma = seq![','];
    let head = op + v + comma;
    let body = head + rest;
    let tail = comma + rest;
    assert(body =~= op + v + tail);
    assert(tail[0] == ',');
    lemma_first_version(op, v, tail);
    assert(body.skip(0) =~= body);
    lemma_first_of(op, Class::One('<'), 0);
    let end = op.len() + v.len();
    assert(body[end as int] == ',');
    assert(lowest_place(body, 0) == lowest_place(body, end + 1));
    lemma_place_shift(head, rest, 0);
}

/// What names no version to look up: an upper bound alone, a protocol or a path,
/// a word before the digits, and what has no digits.
pub proof fn some_constraints_name_no_version(s: Seq<char>)
    requires
        s.len() > 0 && !is_space(s[0]) && !is_space(s.last()),
        ({
            ||| exists|i: int| 0 <= i < s.len() && #[trigger] s[i] == ':'
            ||| exists|i: int| 0 <= i < s.len() && #[trigger] s[i] == '/'
            ||| forall|i: int| 0 <= i < s.len() ==> !is_digit(#[trigger] s[i])
            ||| is_alnum(s[0]) && !is_digit(s[0]) && s[0] != 'v'
        }),
    ensures
        lowest_of(s) is None,
{
    crate::laws::writing::lemma_trimmed(s, Class::Space);
    lemma_first_of_is(s, Class::One(':'));
    lemma_first_of_is(s, Class::One('/'));
    if exists|i: int| 0 <= i < s.len() && #[trigger] s[i] == ':' {
        let i = choose|i: int| 0 <= i < s.len() && #[trigger] s[i] == ':';
        assert(Class::One(':').has(s[i]));
    } else if exists|i: int| 0 <= i < s.len() && #[trigger] s[i] == '/' {
        let i = choose|i: int| 0 <= i < s.len() && #[trigger] s[i] == '/';
        assert(Class::One('/').has(s[i]));
    } else {
        assert(s.skip(0) =~= s);
        lemma_first_of_is(s, Class::Digit);
        if let Some(n) = first_of(s, Class::Digit) {
            assert(is_digit(s[n as int]));
            assert(n > 0);
            let op = s.take(n as int);
            assert(op[0] == s[0]);
            lemma_first_of_is(op, Class::NotOperator);
            assert(Class::NotOperator.has(op[0]));
        }
    }
}

/// An upper bound alone names no version.
pub proof fn an_upper_bound_alone_names_no_version(op: Seq<char>, v: Seq<char>)
    requires
        operates(op) && op.len() > 0 && op[0] == '<',
        spelled(v),
    ensures
        lowest_of(op + v) is None,
{
    let body = op + v;
    assert(body =~= op + v + seq![]);
    assert(body[0] == '<');
    assert(body[body.len() - 1] == v[v.len() - 1]);
    crate::laws::writing::lemma_trimmed(body, Class::Space);
    lemma_first_version(op, v, seq![]);
    assert(body.skip(0) =~= body);
    lemma_first_of(op, Class::One('<'), 0);
    assert(lowest_place(body, 0) == lowest_place(body, body.len()));
}

} // verus!
