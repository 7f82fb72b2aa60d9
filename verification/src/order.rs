//! Comparison results, and the orders that version comparison is built from.
use crate::text::{
    chars, lemma_utf8_add, utf8_len, trim_start_of, lemma_leading_is, trim_start, Class,
};
use vstd::prelude::*;

verus! {

/// The outcome of a comparison.
#[derive(Clone, Copy, PartialEq, Eq, Debug, Structural)]
pub enum Order {
    Less,
    Equal,
    Greater,
}

/// The outcome with the sides exchanged.
pub open spec fn flip(o: Order) -> Order {
    match o {
        Order::Less => Order::Greater,
        Order::Equal => Order::Equal,
        Order::Greater => Order::Less,
    }
}

/// The first outcome, unless it leaves the second to decide.
pub open spec fn chain(a: Order, b: Order) -> Order {
    if a == Order::Equal {
        b
    } else {
        a
    }
}

/// Three outcomes that one total preorder could give for `a` with `b`, `b`
/// with `c`, and `a` with `c`.
pub open spec fn coherent(ab: Order, bc: Order, ac: Order) -> bool {
    &&& ab == Order::Equal ==> ac == bc
    &&& bc == Order::Equal ==> ac == ab
    &&& ab == bc ==> ac == ab
}

impl Order {
    /// This outcome, unless it leaves the other to decide.
    pub fn or(self, other: Order) -> (r: Order)
        ensures
            r == chain(self, other),
    {
        if self == Order::Equal {
            other
        } else {
            self
        }
    }

    pub fn ordering(self) -> (r: core::cmp::Ordering)
        ensures
            r == ordering_of(self),
    {
        match self {
            Order::Less => core::cmp::Ordering::Less,
            Order::Equal => core::cmp::Ordering::Equal,
            Order::Greater => core::cmp::Ordering::Greater,
        }
    }
}

/// The outcome as the standard library spells it.
pub open spec fn ordering_of(o: Order) -> core::cmp::Ordering {
    match o {
        Order::Less => core::cmp::Ordering::Less,
        Order::Equal => core::cmp::Ordering::Equal,
        Order::Greater => core::cmp::Ordering::Greater,
    }
}

pub open spec fn int_order(a: int, b: int) -> Order {
    if a < b {
        Order::Less
    } else if a == b {
        Order::Equal
    } else {
        Order::Greater
    }
}

pub fn usize_order(a: usize, b: usize) -> (r: Order)
    ensures
        r == int_order(a as int, b as int),
{
    if a < b {
        Order::Less
    } else if a == b {
        Order::Equal
    } else {
        Order::Greater
    }
}

/// Text in dictionary order of its characters, which is the order of its
/// UTF-8 bytes.
pub open spec fn text_order(a: Seq<char>, b: Seq<char>) -> Order
    decreases a.len(),
{
    if a.len() == 0 {
        if b.len() == 0 {
            Order::Equal
        } else {
            Order::Less
        }
    } else if b.len() == 0 {
        Order::Greater
    } else if a[0] < b[0] {
        Order::Less
    } else if b[0] < a[0] {
        Order::Greater
    } else {
        text_order(a.skip(1), b.skip(1))
    }
}

pub proof fn lemma_text_flip(a: Seq<char>, b: Seq<char>)
    ensures
        text_order(b, a) == flip(text_order(a, b)),
    decreases a.len(),
{
    if a.len() > 0 && b.len() > 0 {
        lemma_text_flip(a.skip(1), b.skip(1));
    }
}

pub proof fn lemma_text_coherent(a: Seq<char>, b: Seq<char>, c: Seq<char>)
    ensures
        coherent(text_order(a, b), text_order(b, c), text_order(a, c)),
    decreases a.len() + b.len(),
{
    if a.len() > 0 && b.len() > 0 && c.len() > 0 {
        lemma_text_coherent(a.skip(1), b.skip(1), c.skip(1));
    }
}

/// Only the same text orders as equal.
pub proof fn lemma_text_equal(a: Seq<char>, b: Seq<char>)
    ensures
        text_order(a, b) == Order::Equal <==> a == b,
    decreases a.len(),
{
    if a.len() > 0 && b.len() > 0 {
        lemma_text_equal(a.skip(1), b.skip(1));
        if a[0] == b[0] && a.skip(1) == b.skip(1) {
            assert(a =~= seq![a[0]] + a.skip(1));
            assert(b =~= seq![b[0]] + b.skip(1));
        }
    } else if a.len() == 0 && b.len() == 0 {
        assert(a =~= b);
    }
}

pub fn compare_chars(a: &[char], b: &[char]) -> (r: Order)
    ensures
        r == text_order(a@, b@),
{
    let mut i: usize = 0;
    proof {
        assert(a@.skip(0) =~= a@);
        assert(b@.skip(0) =~= b@);
    }
    while i < a.len() && i < b.len()
        invariant
            i <= a@.len(),
            i <= b@.len(),
            text_order(a@, b@) == text_order(a@.skip(i as int), b@.skip(i as int)),
        decreases a@.len() - i,
    {
        if a[i] < b[i] {
            return Order::Less;
        }
        if b[i] < a[i] {
            return Order::Greater;
        }
        proof {
            assert(a@.skip(i as int).skip(1) =~= a@.skip(i + 1));
            assert(b@.skip(i as int).skip(1) =~= b@.skip(i + 1));
        }
        i += 1;
    }
    usize_order(a.len(), b.len())
}

pub fn compare_text(a: &str, b: &str) -> (r: Order)
    ensures
        r == text_order(a@, b@),
{
    let a = chars(a);
    let b = chars(b);
    compare_chars(a.as_slice(), b.as_slice())
}

/// The digits without the zeros in front.
pub open spec fn significant(s: Seq<char>) -> Seq<char> {
    trim_start_of(s, Class::One('0'))
}

/// Runs of digits by the number they spell: the longer is the larger once
/// leading zeros are gone, and between equals the digits decide.
pub open spec fn digits_order(a: Seq<char>, b: Seq<char>) -> Order {
    chain(
        int_order(utf8_len(significant(a)) as int, utf8_len(significant(b)) as int),
        text_order(significant(a), significant(b)),
    )
}

pub proof fn lemma_digits_flip(a: Seq<char>, b: Seq<char>)
    ensures
        digits_order(b, a) == flip(digits_order(a, b)),
{
    lemma_text_flip(significant(a), significant(b));
}

pub proof fn lemma_digits_coherent(a: Seq<char>, b: Seq<char>, c: Seq<char>)
    ensures
        coherent(digits_order(a, b), digits_order(b, c), digits_order(a, c)),
{
    lemma_text_coherent(significant(a), significant(b), significant(c));
}

pub fn compare_digits(a: &str, b: &str) -> (r: Order)
    ensures
        r == digits_order(a@, b@),
{
    let a_chars = chars(a);
    let b_chars = chars(b);
    let a_digits = trim_start(a_chars.as_slice(), Class::One('0'));
    let b_digits = trim_start(b_chars.as_slice(), Class::One('0'));
    let a_bytes: usize = a.as_bytes().len();
    let b_bytes: usize = b.as_bytes().len();
    proof {
        lemma_zeros(a@);
        lemma_zeros(b@);
    }
    let a_len: usize = a_bytes - (a_chars.len() - a_digits.len());
    let b_len: usize = b_bytes - (b_chars.len() - b_digits.len());
    usize_order(a_len, b_len).or(compare_chars(a_digits, b_digits))
}

/// Each leading zero is one byte.
proof fn lemma_zeros(s: Seq<char>)
    ensures
        significant(s).len() <= s.len(),
        utf8_len(s) == (s.len() - significant(s).len()) + utf8_len(significant(s)),
    decreases s.len(),
{
    lemma_leading_is(s, Class::One('0'));
    if s.len() > 0 && s[0] == '0' {
        lemma_zeros(s.skip(1));
        lemma_leading_is(s.skip(1), Class::One('0'));
        assert(s =~= seq!['0'] + s.skip(1));
        lemma_utf8_add(seq!['0'], s.skip(1));
        crate::text::lemma_utf8_one('0');
        assert(significant(s) =~= significant(s.skip(1)));
    } else {
        assert(significant(s) =~= s);
    }
}

/// Lists of numbers, the shorter filled up with zeros.
pub open spec fn padded_order(a: Seq<Seq<char>>, b: Seq<Seq<char>>) -> Order
    decreases a.len() + b.len(),
{
    if a.len() == 0 && b.len() == 0 {
        Order::Equal
    } else {
        chain(digits_order(head_or_zero(a), head_or_zero(b)), padded_order(rest(a), rest(b)))
    }
}

pub open spec fn head_or_zero(a: Seq<Seq<char>>) -> Seq<char> {
    if a.len() > 0 {
        a[0]
    } else {
        seq!['0']
    }
}

pub open spec fn rest<A>(a: Seq<A>) -> Seq<A> {
    if a.len() > 0 {
        a.skip(1)
    } else {
        a
    }
}

pub proof fn lemma_padded_flip(a: Seq<Seq<char>>, b: Seq<Seq<char>>)
    ensures
        padded_order(b, a) == flip(padded_order(a, b)),
    decreases a.len() + b.len(),
{
    if a.len() > 0 || b.len() > 0 {
        lemma_digits_flip(head_or_zero(a), head_or_zero(b));
        lemma_padded_flip(rest(a), rest(b));
    }
}

pub proof fn lemma_padded_coherent(a: Seq<Seq<char>>, b: Seq<Seq<char>>, c: Seq<Seq<char>>)
    ensures
        coherent(padded_order(a, b), padded_order(b, c), padded_order(a, c)),
    decreases a.len() + b.len() + c.len(),
{
    if a.len() == 0 && b.len() == 0 && c.len() == 0 {
    } else {
        lemma_digits_coherent(head_or_zero(a), head_or_zero(b), head_or_zero(c));
        lemma_digits_flip(seq!['0'], seq!['0']);
        lemma_padded_coherent(rest(a), rest(b), rest(c));
        lemma_unfold_padded(a, b);
        lemma_unfold_padded(b, c);
        lemma_unfold_padded(a, c);
    }
}

proof fn lemma_unfold_padded(a: Seq<Seq<char>>, b: Seq<Seq<char>>)
    ensures
        padded_order(a, b) == chain(
            digits_order(head_or_zero(a), head_or_zero(b)),
            padded_order(rest(a), rest(b)),
        ),
{
    if a.len() == 0 && b.len() == 0 {
        lemma_digits_flip(seq!['0'], seq!['0']);
    }
}

pub fn compare_components(a: &[String], b: &[String]) -> (r: Order)
    ensures
        r == padded_order(crate::text::texts(a@), crate::text::texts(b@)),
{
    let ghost av = crate::text::texts(a@);
    let ghost bv = crate::text::texts(b@);
    let mut i: usize = 0;
    proof {
        assert(av.skip(0) =~= av);
        assert(bv.skip(0) =~= bv);
        reveal_strlit("0");
        assert("0"@ =~= seq!['0']);
    }
    while i < a.len() || i < b.len()
        invariant
            av == crate::text::texts(a@),
            bv == crate::text::texts(b@),
            "0"@ == seq!['0'],
            i <= a@.len() || i <= b@.len(),
            padded_order(av, bv) == padded_order(from(av, i as int), from(bv, i as int)),
        decreases (if a@.len() > b@.len() { a@.len() } else { b@.len() }) - i,
    {
        let x: &str = if i < a.len() { a[i].as_str() } else { "0" };
        let y: &str = if i < b.len() { b[i].as_str() } else { "0" };
        proof {
            assert(x@ == head_or_zero(from(av, i as int)));
            assert(y@ == head_or_zero(from(bv, i as int)));
            assert(rest(from(av, i as int)) =~= from(av, i + 1));
            assert(rest(from(bv, i as int)) =~= from(bv, i + 1));
        }
        let o = compare_digits(x, y);
        if o != Order::Equal {
            return o;
        }
        i += 1;
    }
    Order::Equal
}

/// What is left of a list from an index on, nothing past its end.
pub open spec fn from<A>(a: Seq<A>, i: int) -> Seq<A> {
    if i <= a.len() {
        a.skip(i)
    } else {
        a.skip(a.len() as int)
    }
}

/// Whether some text is one or more ASCII digits.
pub open spec fn all_digits(s: Seq<char>) -> bool {
    s.len() > 0 && crate::text::first_of(s, Class::NotDigit) is None
}

pub fn is_number(s: &str) -> (r: bool)
    ensures
        r == all_digits(s@),
{
    let s = chars(s);
    s.len() > 0 && crate::text::find_class(s.as_slice(), Class::NotDigit).is_none()
}

/// Fields of a version: numbers by value, words as text, and between the two
/// kinds the one `numbers_first` puts first.
pub open spec fn field_order(a: Seq<char>, b: Seq<char>, numbers_first: bool) -> Order {
    if all_digits(a) && all_digits(b) {
        digits_order(a, b)
    } else if !all_digits(a) && !all_digits(b) {
        text_order(a, b)
    } else if all_digits(a) == numbers_first {
        Order::Less
    } else {
        Order::Greater
    }
}

/// Lists of fields: the first difference decides, else the shorter is less.
pub open spec fn fields_order(a: Seq<Seq<char>>, b: Seq<Seq<char>>, numbers_first: bool) -> Order
    decreases a.len(),
{
    if a.len() == 0 || b.len() == 0 {
        int_order(a.len() as int, b.len() as int)
    } else {
        chain(
            field_order(a[0], b[0], numbers_first),
            fields_order(a.skip(1), b.skip(1), numbers_first),
        )
    }
}

pub proof fn lemma_fields_flip(a: Seq<Seq<char>>, b: Seq<Seq<char>>, numbers_first: bool)
    ensures
        fields_order(b, a, numbers_first) == flip(fields_order(a, b, numbers_first)),
    decreases a.len(),
{
    if a.len() > 0 && b.len() > 0 {
        lemma_digits_flip(a[0], b[0]);
        lemma_text_flip(a[0], b[0]);
        lemma_fields_flip(a.skip(1), b.skip(1), numbers_first);
    }
}

pub proof fn lemma_fields_coherent(
    a: Seq<Seq<char>>,
    b: Seq<Seq<char>>,
    c: Seq<Seq<char>>,
    numbers_first: bool,
)
    ensures
        coherent(
            fields_order(a, b, numbers_first),
            fields_order(b, c, numbers_first),
            fields_order(a, c, numbers_first),
        ),
    decreases a.len() + b.len(),
{
    if a.len() > 0 && b.len() > 0 && c.len() > 0 {
        lemma_digits_coherent(a[0], b[0], c[0]);
        lemma_text_coherent(a[0], b[0], c[0]);
        lemma_fields_coherent(a.skip(1), b.skip(1), c.skip(1), numbers_first);
    }
}

pub fn compare_fields(a: &Vec<String>, b: &Vec<String>, numbers_first: bool) -> (r: Order)
    ensures
        r == fields_order(a.deep_view(), b.deep_view(), numbers_first),
{
    let ghost av = a.deep_view();
    let ghost bv = b.deep_view();
    let mut i: usize = 0;
    proof {
        assert(av.skip(0) =~= av);
        assert(bv.skip(0) =~= bv);
    }
    while i < a.len() && i < b.len()
        invariant
            av == a.deep_view(),
            bv == b.deep_view(),
            i <= a@.len(),
            i <= b@.len(),
            fields_order(av, bv, numbers_first) == fields_order(
                av.skip(i as int),
                bv.skip(i as int),
                numbers_first,
            ),
        decreases a@.len() - i,
    {
        let x = a[i].as_str();
        let y = b[i].as_str();
        let o = if is_number(x) && is_number(y) {
            compare_digits(x, y)
        } else if !is_number(x) && !is_number(y) {
            compare_text(x, y)
        } else if is_number(x) == numbers_first {
            Order::Less
        } else {
            Order::Greater
        };
        proof {
            assert(x@ == av.skip(i as int)[0]);
            assert(y@ == bv.skip(i as int)[0]);
            assert(av.skip(i as int).skip(1) =~= av.skip(i + 1));
            assert(bv.skip(i as int).skip(1) =~= bv.skip(i + 1));
        }
        if o != Order::Equal {
            return o;
        }
        i += 1;
    }
    usize_order(a.len(), b.len())
}

} // verus!
