//! Numbers of any length, compared as runs of digits.
use crate::order::{
    compare_components, compare_digits, digits_order, int_order, ordering_of, padded_order,
    significant, text_order,
};
use crate::text::{is_digit, lemma_leading_is, texts, utf8_len, Class};
use core::cmp::Ordering;
use vstd::prelude::*;

verus! {

/// Compares two runs of decimal digits exactly, at any length.
///
/// Stripping leading zeros makes length the primary key and the digits
/// themselves the tiebreak.
pub fn cmp_digits(a: &str, b: &str) -> (r: Ordering)
    ensures
        r == ordering_of(digits_order(a@, b@)),
{
    compare_digits(a, b).ordering()
}

/// Compares two lists of numeric components, padding the shorter with zeros.
pub fn components_cmp(a: &[String], b: &[String]) -> (r: Ordering)
    ensures
        r == ordering_of(padded_order(texts(a@), texts(b@))),
{
    compare_components(a, b).ordering()
}

/// The value of a digit.
pub open spec fn digit_value(c: char) -> int {
    c as int - '0' as int
}

/// The number a run of digits spells.
pub open spec fn value(s: Seq<char>) -> int
    decreases s.len(),
{
    if s.len() == 0 {
        0
    } else {
        value(s.drop_last()) * 10 + digit_value(s.last())
    }
}

pub open spec fn pow10(n: nat) -> int
    decreases n,
{
    if n == 0 {
        1
    } else {
        10 * pow10((n - 1) as nat)
    }
}

pub open spec fn digits_only(s: Seq<char>) -> bool {
    forall|i: int| 0 <= i < s.len() ==> is_digit(#[trigger] s[i])
}

proof fn lemma_value_bound(s: Seq<char>)
    requires
        digits_only(s),
    ensures
        0 <= value(s) < pow10(s.len()),
    decreases s.len(),
{
    if s.len() > 0 {
        lemma_value_bound(s.drop_last());
        assert(is_digit(s[s.len() - 1]));
    }
}

proof fn lemma_value_front(s: Seq<char>)
    requires
        s.len() > 0,
    ensures
        value(s) == digit_value(s[0]) * pow10((s.len() - 1) as nat) + value(s.skip(1)),
    decreases s.len(),
{
    if s.len() == 1 {
        assert(s.drop_last() =~= seq![]);
        assert(s.skip(1) =~= seq![]);
        assert(value(s.drop_last()) == 0);
        assert(value(s.skip(1)) == 0);
        assert(pow10(0) == 1);
    } else {
        let t = s.drop_last();
        lemma_value_front(t);
        assert(t.skip(1) =~= s.skip(1).drop_last());
        assert(s.skip(1).last() == s.last());
        let d = digit_value(s[0]);
        let p = pow10((s.len() - 2) as nat);
        let v = value(t.skip(1));
        assert(pow10((s.len() - 1) as nat) == 10 * p);
        assert((d * p + v) * 10 == d * (10 * p) + v * 10) by (nonlinear_arith);
    }
}

pub proof fn lemma_same_length(a: Seq<char>, b: Seq<char>)
    requires
        digits_only(a),
        digits_only(b),
        a.len() == b.len(),
    ensures
        text_order(a, b) == int_order(value(a), value(b)),
    decreases a.len(),
{
    if a.len() > 0 {
        let (ta, tb) = (a.skip(1), b.skip(1));
        assert forall|i: int| 0 <= i < ta.len() implies is_digit(#[trigger] ta[i]) by {
            assert(ta[i] == a[i + 1]);
        }
        assert forall|i: int| 0 <= i < tb.len() implies is_digit(#[trigger] tb[i]) by {
            assert(tb[i] == b[i + 1]);
        }
        lemma_same_length(ta, tb);
        lemma_value_front(a);
        lemma_value_front(b);
        lemma_value_bound(ta);
        lemma_value_bound(tb);
        let p = pow10((a.len() - 1) as nat);
        let (x, y) = (digit_value(a[0]), digit_value(b[0]));
        assert(is_digit(a[0]) && is_digit(b[0]));
        if x < y {
            assert(x * p + p <= y * p) by (nonlinear_arith)
                requires
                    x + 1 <= y,
                    p > 0,
            ;
        } else if y < x {
            assert(y * p + p <= x * p) by (nonlinear_arith)
                requires
                    y + 1 <= x,
                    p > 0,
            ;
        }
    }
}

proof fn lemma_longer(a: Seq<char>, b: Seq<char>)
    requires
        digits_only(a),
        digits_only(b),
        a.len() < b.len(),
        b[0] != '0',
    ensures
        value(a) < value(b),
{
    lemma_value_bound(a);
    lemma_value_front(b);
    let tb = b.skip(1);
    assert forall|i: int| 0 <= i < tb.len() implies is_digit(#[trigger] tb[i]) by {
        assert(tb[i] == b[i + 1]);
    }
    lemma_value_bound(tb);
    assert(is_digit(b[0]));
    let p = pow10((b.len() - 1) as nat);
    lemma_pow10_grows(a.len(), (b.len() - 1) as nat);
    let d = digit_value(b[0]);
    assert(d * p >= p) by (nonlinear_arith)
        requires
            d >= 1,
            p > 0,
    ;
}

proof fn lemma_pow10_grows(a: nat, b: nat)
    requires
        a <= b,
    ensures
        0 < pow10(a) <= pow10(b),
    decreases b,
{
    if b > 0 {
        if a < b {
            lemma_pow10_grows(a, (b - 1) as nat);
        } else {
            lemma_pow10_grows((a - 1) as nat, (b - 1) as nat);
        }
    }
}

pub proof fn lemma_significant(s: Seq<char>)
    requires
        digits_only(s),
    ensures
        value(significant(s)) == value(s),
        digits_only(significant(s)),
        significant(s).len() > 0 ==> significant(s)[0] != '0',
        utf8_len(significant(s)) == significant(s).len(),
    decreases s.len(),
{
    lemma_leading_is(s, Class::One('0'));
    if s.len() > 0 && s[0] == '0' {
        let t = s.skip(1);
        assert forall|i: int| 0 <= i < t.len() implies is_digit(#[trigger] t[i]) by {
            assert(t[i] == s[i + 1]);
        }
        lemma_significant(t);
        lemma_leading_is(t, Class::One('0'));
        lemma_value_front(s);
        assert(significant(s) =~= significant(t));
        assert(digit_value('0') * pow10((s.len() - 1) as nat) == 0) by (nonlinear_arith)
            requires
                digit_value('0') == 0,
        ;
    } else {
        assert(significant(s) =~= s);
        lemma_ascii_len(s);
    }
}

proof fn lemma_ascii_len(s: Seq<char>)
    requires
        digits_only(s),
    ensures
        utf8_len(s) == s.len(),
    decreases s.len(),
{
    if s.len() > 0 {
        lemma_ascii_len(s.drop_last());
        crate::text::lemma_utf8_push(s.drop_last(), s.last());
        assert(s.drop_last().push(s.last()) =~= s);
        assert(is_digit(s[s.len() - 1]));
    } else {
        assert(s =~= seq![]);
    }
}

/// Runs of digits order as the numbers they spell do, at any length and with
/// any number of leading zeros.
pub proof fn digits_order_is_numeric(a: Seq<char>, b: Seq<char>)
    requires
        digits_only(a),
        digits_only(b),
    ensures
        digits_order(a, b) == int_order(value(a), value(b)),
{
    lemma_significant(a);
    lemma_significant(b);
    let (x, y) = (significant(a), significant(b));
    if x.len() < y.len() {
        lemma_longer(x, y);
    } else if y.len() < x.len() {
        lemma_longer(y, x);
    } else {
        lemma_same_length(x, y);
    }
}

/// A component that is missing counts as zero: filling a list up with zeros
/// changes no comparison.
pub proof fn trailing_zero_components_do_not_count(a: Seq<Seq<char>>, b: Seq<Seq<char>>)
    ensures
        padded_order(a.push(seq!['0']), b) == padded_order(a, b),
    decreases a.len() + b.len(),
{
    use_padding(a, b);
}

proof fn use_padding(a: Seq<Seq<char>>, b: Seq<Seq<char>>)
    ensures
        padded_order(a.push(seq!['0']), b) == padded_order(a, b),
    decreases a.len() + b.len(),
{
    let longer = a.push(seq!['0']);
    if a.len() == 0 {
        assert(crate::order::rest(longer) =~= a);
        assert(crate::order::head_or_zero(longer) == seq!['0']);
        if b.len() == 0 {
            crate::order::lemma_digits_flip(seq!['0'], seq!['0']);
            assert(crate::order::rest(b) =~= b);
        }
    } else {
        assert(crate::order::rest(longer) =~= crate::order::rest(a).push(seq!['0']));
        use_padding(crate::order::rest(a), crate::order::rest(b));
    }
}

} // verus!
